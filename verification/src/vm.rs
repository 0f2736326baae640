//! The stack virtual machine.
//!
//! The meaning of the instruction set is given once, as a small-step
//! transition function `step` over a ghost machine state; `run` is proved to
//! return exactly what iterating that transition from its starting state
//! yields.  A runtime failure (a type error in the executed program) is kept
//! apart from an internal failure (malformed bytecode, which the compiler
//! never emits).

use core::cmp::Ordering;
use vstd::prelude::*;

use crate::bytecode::{
    add_v, cmp_v, div_v, models_of, mul_v, neg_v, op_from_code, sub_v, truthy_v, Op, Value, ValueV,
};
use crate::ast::list::List;
use crate::chunk::{decoded_const, Chunk};

verus! {

/// How an execution can end.
pub enum VMError {
    /// The executed program misused a value: reported with context.
    Runtime(String),
    /// A failure of the compilation contract surfaced at run time.
    Compile(String),
    /// Malformed bytecode or a broken machine invariant.
    Internal(String),
}

/// The ghost state of the machine: instruction pointer, operand stack and
/// frame-pointer stack, the stack as models of values.
pub ghost struct VmState {
    pub ip: int,
    pub stack: Seq<ValueV>,
    pub frames: Seq<int>,
}

/// The ghost view of a chunk as the machine reads it.
pub ghost struct ChunkV {
    pub code: Seq<u8>,
    pub values: Seq<ValueV>,
}

/// What one instruction does: go on in a new state, halt with a value, fail
/// at the program's fault, or fail at the machine's fault.
pub ghost enum StepV {
    Next(VmState),
    Done(ValueV),
    RuntimeFail,
    InternalFail,
}

pub open spec fn chunk_m(c: &Chunk) -> ChunkV {
    ChunkV { code: c.code_m(), values: c.values_m() }
}

/// A jump operand byte read as a signed offset.
pub open spec fn byte_signed(b: u8) -> int {
    if b < 128 {
        b as int
    } else {
        (b as int) - 256
    }
}

/// Whether an ordering outcome satisfies a comparison instruction.
pub open spec fn comp_matches(op: Op, ord: Ordering) -> bool {
    match op {
        Op::Equal => ord is Equal,
        Op::Less => ord is Less,
        Op::Greater => ord is Greater,
        Op::LessEqual => ord is Less || ord is Equal,
        Op::GreaterEqual => ord is Greater || ord is Equal,
        _ => false,
    }
}

/// Chained comparison over operands in source order: every adjacent pair
/// must satisfy the comparison; the first failing pair settles the answer as
/// false; a pair with no defined order is a type error (`None`).
pub open spec fn chain_compare(op: Op, vals: Seq<ValueV>) -> Option<bool>
    decreases vals.len(),
{
    if vals.len() <= 1 {
        Some(true)
    } else {
        match cmp_v(vals[0], vals[1]) {
            None => None,
            Some(ord) => if comp_matches(op, ord) {
                chain_compare(op, vals.drop_first())
            } else {
                Some(false)
            },
        }
    }
}

/// The value rule a binary arithmetic instruction applies.
pub open spec fn apply_binary(op: Op, a: ValueV, b: ValueV) -> ValueV {
    match op {
        Op::Add => add_v(a, b),
        Op::Subtract => sub_v(a, b),
        Op::Multiply => mul_v(a, b),
        Op::Divide => div_v(a, b),
        _ => ValueV::Error,
    }
}

/// The tail of a list value: empty stays empty.
pub open spec fn tail_of(l: Seq<ValueV>) -> Seq<ValueV> {
    if l.len() == 0 {
        l
    } else {
        l.drop_first()
    }
}

/// How many elements a truncation to `b` keeps of a stack of length `len`.
pub open spec fn clamp_to(b: int, len: int) -> int {
    if b < 0 {
        0
    } else if b > len {
        len
    } else {
        b
    }
}

/// The operands of a comparison in source order: popping reverses the order
/// of emission, which itself reversed the source, so the k-th popped value
/// is the k-th source operand.
pub open spec fn popped_n(stack: Seq<ValueV>, n: int) -> Seq<ValueV> {
    Seq::new(n as nat, |k: int| stack[stack.len() - 1 - k])
}

/// One step of the machine on chunk `c` from state `s`.
pub open spec fn step(c: ChunkV, s: VmState) -> StepV {
    if !(0 <= s.ip < c.code.len()) {
        StepV::InternalFail
    } else {
        let len = s.stack.len() as int;
        match op_from_code(c.code[s.ip]) {
            None => StepV::InternalFail,
            Some(op) => match op {
                Op::Return => if len == 0 {
                    StepV::InternalFail
                } else {
                    StepV::Done(s.stack.last())
                },
                Op::NoOp => StepV::Next(VmState { ip: s.ip + 1, ..s }),
                Op::Discard1 => if len == 0 {
                    StepV::InternalFail
                } else {
                    StepV::Next(VmState { ip: s.ip + 1, stack: s.stack.drop_last(), ..s })
                },
                Op::Discard => if s.ip + 1 >= c.code.len() {
                    StepV::InternalFail
                } else {
                    let n = c.code[s.ip + 1] as int;
                    if len < n {
                        StepV::InternalFail
                    } else {
                        StepV::Next(
                            VmState { ip: s.ip + 2, stack: s.stack.take(len - n), ..s },
                        )
                    }
                },
                Op::Const1 | Op::Const2 | Op::Const3 => match decoded_const(c.code, s.ip) {
                    None => StepV::InternalFail,
                    Some(d) => if 0 <= d.0 < c.values.len() {
                        StepV::Next(
                            VmState {
                                ip: s.ip + 1 + d.1,
                                stack: s.stack.push(c.values[d.0]),
                                ..s
                            },
                        )
                    } else {
                        StepV::InternalFail
                    },
                },
                Op::Negate => if len == 0 {
                    StepV::InternalFail
                } else {
                    let v = neg_v(s.stack.last());
                    if v is Error {
                        StepV::RuntimeFail
                    } else {
                        StepV::Next(
                            VmState { ip: s.ip + 1, stack: s.stack.drop_last().push(v), ..s },
                        )
                    }
                },
                Op::Car => if len == 0 {
                    StepV::InternalFail
                } else {
                    match s.stack.last() {
                        ValueV::VList(l) => if l.len() == 0 {
                            StepV::RuntimeFail
                        } else {
                            StepV::Next(
                                VmState {
                                    ip: s.ip + 1,
                                    stack: s.stack.drop_last().push(l[0]),
                                    ..s
                                },
                            )
                        },
                        _ => StepV::RuntimeFail,
                    }
                },
                Op::Cdr => if len == 0 {
                    StepV::InternalFail
                } else {
                    match s.stack.last() {
                        ValueV::VList(l) => StepV::Next(
                            VmState {
                                ip: s.ip + 1,
                                stack: s.stack.drop_last().push(ValueV::VList(tail_of(l))),
                                ..s
                            },
                        ),
                        _ => StepV::RuntimeFail,
                    }
                },
                Op::Cons => if len < 2 {
                    StepV::InternalFail
                } else {
                    match s.stack[len - 2] {
                        ValueV::VList(l) => StepV::Next(
                            VmState {
                                ip: s.ip + 1,
                                stack: s.stack.take(len - 2).push(
                                    ValueV::VList(seq![s.stack.last()] + l),
                                ),
                                ..s
                            },
                        ),
                        _ => StepV::RuntimeFail,
                    }
                },
                Op::Add | Op::Subtract | Op::Multiply | Op::Divide => if len < 2 {
                    StepV::InternalFail
                } else {
                    let x = apply_binary(op, s.stack.last(), s.stack[len - 2]);
                    if x is Error {
                        StepV::RuntimeFail
                    } else {
                        StepV::Next(
                            VmState { ip: s.ip + 1, stack: s.stack.take(len - 2).push(x), ..s },
                        )
                    }
                },
                Op::Equal | Op::LessEqual | Op::GreaterEqual | Op::Less | Op::Greater => if s.ip
                    + 1 >= c.code.len() {
                    StepV::InternalFail
                } else {
                    let n = c.code[s.ip + 1] as int;
                    if len < n {
                        StepV::InternalFail
                    } else if n == 0 {
                        StepV::RuntimeFail
                    } else {
                        match chain_compare(op, popped_n(s.stack, n)) {
                            None => StepV::RuntimeFail,
                            Some(b) => StepV::Next(
                                VmState {
                                    ip: s.ip + 2,
                                    stack: s.stack.take(len - n).push(ValueV::Bool(b)),
                                    ..s
                                },
                            ),
                        }
                    }
                },
                Op::Jump => if s.ip + 1 >= c.code.len() {
                    StepV::InternalFail
                } else {
                    StepV::Next(
                        VmState { ip: s.ip + 2 + byte_signed(c.code[s.ip + 1]), ..s },
                    )
                },
                Op::JumpTrue => if s.ip + 1 >= c.code.len() {
                    StepV::InternalFail
                } else if len == 0 {
                    StepV::InternalFail
                } else if s.stack.last() is Error {
                    StepV::InternalFail
                } else {
                    let taken = truthy_v(s.stack.last());
                    let ip2 = if taken {
                        s.ip + 2 + byte_signed(c.code[s.ip + 1])
                    } else {
                        s.ip + 2
                    };
                    StepV::Next(VmState { ip: ip2, stack: s.stack.drop_last(), ..s })
                },
                Op::Load => if s.ip + 2 >= c.code.len() {
                    StepV::InternalFail
                } else {
                    let slot = c.code[s.ip + 1] as int;
                    let depth = c.code[s.ip + 2] as int;
                    if s.frames.len() < depth + 1 {
                        StepV::InternalFail
                    } else {
                        let cell = s.frames[s.frames.len() - 1 - depth] + slot;
                        if !(0 <= cell < len) {
                            StepV::InternalFail
                        } else {
                            StepV::Next(
                                VmState {
                                    ip: s.ip + 3,
                                    stack: s.stack.push(s.stack[cell]),
                                    ..s
                                },
                            )
                        }
                    }
                },
                Op::Store => if s.ip + 2 >= c.code.len() {
                    StepV::InternalFail
                } else if len == 0 {
                    StepV::InternalFail
                } else {
                    let slot = c.code[s.ip + 1] as int;
                    let depth = c.code[s.ip + 2] as int;
                    let v = s.stack.last();
                    let st1 = s.stack.drop_last();
                    if s.frames.len() < depth + 1 {
                        StepV::InternalFail
                    } else {
                        let cell = s.frames[s.frames.len() - 1 - depth] + slot;
                        if !(0 <= cell < st1.len()) {
                            StepV::InternalFail
                        } else {
                            StepV::Next(
                                VmState {
                                    ip: s.ip + 3,
                                    stack: st1.update(cell, v).push(v),
                                    ..s
                                },
                            )
                        }
                    }
                },
                Op::CreateFrame => StepV::Next(
                    VmState { ip: s.ip + 1, frames: s.frames.push(len), ..s },
                ),
                Op::DropFrame => if s.frames.len() == 0 {
                    StepV::InternalFail
                } else {
                    let keep = clamp_to(s.frames.last(), len);
                    StepV::Next(
                        VmState {
                            ip: s.ip + 1,
                            stack: s.stack.take(keep),
                            frames: s.frames.drop_last(),
                        },
                    )
                },
                Op::DropFrameSaveReturn => if len == 0 || s.frames.len() == 0 {
                    StepV::InternalFail
                } else {
                    let v = s.stack.last();
                    let st1 = s.stack.drop_last();
                    let keep = clamp_to(s.frames.last(), st1.len() as int);
                    StepV::Next(
                        VmState {
                            ip: s.ip + 1,
                            stack: st1.take(keep).push(v),
                            frames: s.frames.drop_last(),
                        },
                    )
                },
            },
        }
    }
}

/// The machine after at most `n` steps: still running in some state, or the
/// outcome it has already reached.
pub open spec fn run_steps(c: ChunkV, s: VmState, n: nat) -> StepV
    decreases n,
{
    if n == 0 {
        StepV::Next(s)
    } else {
        match step(c, s) {
            StepV::Next(s2) => run_steps(c, s2, (n - 1) as nat),
            other => other,
        }
    }
}

/// Iteration appends one step at the end as well as at the front.
pub proof fn lemma_run_steps_snoc(c: ChunkV, s: VmState, n: nat)
    ensures
        run_steps(c, s, n + 1) == (match run_steps(c, s, n) {
            StepV::Next(t) => step(c, t),
            other => other,
        }),
    decreases n,
{
    match step(c, s) {
        StepV::Next(s2) => {
            if n == 0 {
                assert(run_steps(c, s2, 0) == StepV::Next(s2));
            } else {
                lemma_run_steps_snoc(c, s2, (n - 1) as nat);
            }
        },
        _ => {},
    }
}

/// The machine's outcome: some number of steps reaches `out`.
pub open spec fn reaches(c: ChunkV, s: VmState, out: StepV) -> bool {
    &&& !(out is Next)
    &&& exists|n: nat| run_steps(c, s, n) == out
}

/// Once the machine has an outcome, more steps change nothing.
proof fn lemma_run_steps_sticky(c: ChunkV, s: VmState, n: nat, m: nat)
    requires
        n <= m,
        !(run_steps(c, s, n) is Next),
    ensures
        run_steps(c, s, m) == run_steps(c, s, n),
    decreases n,
{
    if n == 0 {
    } else {
        match step(c, s) {
            StepV::Next(s2) => {
                lemma_run_steps_sticky(c, s2, (n - 1) as nat, (m - 1) as nat);
            },
            _ => {
                if m > 0 {
                }
            },
        }
    }
}

/// The machine is deterministic: from one starting state on one chunk there
/// is at most one outcome.
pub proof fn lemma_outcome_unique(c: ChunkV, s: VmState, o1: StepV, o2: StepV)
    requires
        reaches(c, s, o1),
        reaches(c, s, o2),
    ensures
        o1 == o2,
{
    let n1 = choose|n: nat| run_steps(c, s, n) == o1;
    let n2 = choose|n: nat| run_steps(c, s, n) == o2;
    if n1 <= n2 {
        lemma_run_steps_sticky(c, s, n1, n2);
    } else {
        lemma_run_steps_sticky(c, s, n2, n1);
    }
}

/// Whether an adjacent pair satisfies a comparison instruction.
pub open spec fn pair_ok(op: Op, a: ValueV, b: ValueV) -> bool {
    match cmp_v(a, b) {
        Some(ord) => comp_matches(op, ord),
        None => false,
    }
}

/// Whether an adjacent pair is ordered yet fails a comparison instruction.
pub open spec fn pair_fails(op: Op, a: ValueV, b: ValueV) -> bool {
    match cmp_v(a, b) {
        Some(ord) => !comp_matches(op, ord),
        None => false,
    }
}

/// A chained comparison short-circuits at the first failing adjacent pair:
/// when every earlier pair satisfies the comparison and pair `i` is ordered
/// but fails it, the chain settles on false, whatever follows — even
/// operands that could not be compared at all.
pub proof fn lemma_chain_short_circuit(op: Op, vals: Seq<ValueV>, i: int)
    requires
        0 <= i < vals.len() - 1,
        forall|j: int| 0 <= j < i ==> pair_ok(op, vals[j], #[trigger] vals[j + 1]),
        pair_fails(op, vals[i], vals[i + 1]),
    ensures
        chain_compare(op, vals) == Some(false),
    decreases i,
{
    if i == 0 {
    } else {
        assert(pair_ok(op, vals[0int], vals[0int + 1]));
        let rest = vals.drop_first();
        assert(forall|j: int| 0 <= j < rest.len() ==> rest[j] == vals[j + 1]);
        assert forall|j: int| 0 <= j < i - 1 implies pair_ok(
            op,
            rest[j],
            #[trigger] rest[j + 1],
        ) by {
            assert(rest[j] == vals[j + 1]);
            assert(rest[j + 1] == vals[(j + 1) + 1]);
            assert(pair_ok(op, vals[j + 1], vals[(j + 1) + 1]));
        }
        assert(rest[i - 1] == vals[(i - 1) + 1] && rest[i] == vals[(i - 1) + 1 + 1]);
        assert(pair_fails(op, rest[i - 1], rest[i]));
        lemma_chain_short_circuit(op, rest, i - 1);
    }
}

pub struct VM {
    /// Whether a caller asked for tracing; execution itself never prints.
    pub debug: bool,
    pub c: Chunk,
    ip: usize,
    stack: Vec<Value>,
    stack_frames: Vec<usize>,
}

/// A machine set to execute `c` from the start with empty stacks, tracing
/// off.
pub fn new(c: Chunk) -> (r: VM)
    ensures
        r.chunk_v() == chunk_m(&c),
        r.state_m() == (VmState { ip: 0, stack: Seq::<ValueV>::empty(), frames: Seq::<int>::empty() }),
        r.debug_m() == false,
{
    let r = VM { debug: false, c, ip: 0, stack: Vec::new(), stack_frames: Vec::new() };
    proof {
        assert(models_of(r.stack@) =~= Seq::<ValueV>::empty());
        assert(r.stack_frames@.map_values(|u: usize| u as int) =~= Seq::<int>::empty());
    }
    r
}

impl VM {
    /// The chunk being executed, as the machine model reads it.
    pub closed spec fn chunk_v(&self) -> ChunkV {
        chunk_m(&self.c)
    }

    /// Whether tracing was requested.
    pub closed spec fn debug_m(&self) -> bool {
        self.debug
    }

    /// The current machine state, as the model reads it.
    pub closed spec fn state_m(&self) -> VmState {
        VmState {
            ip: self.ip as int,
            stack: models_of(self.stack@),
            frames: self.stack_frames@.map_values(|u: usize| u as int),
        }
    }
}

fn err<T>(msg: &str) -> (r: Result<T, VMError>)
    ensures
        r matches Err(e) && e matches VMError::Runtime(m) && m@ == msg@,
{
    Err(VMError::Runtime(msg.to_owned()))
}

fn internal<T>(msg: &str) -> (r: Result<T, VMError>)
    ensures
        r matches Err(e) && e is Internal,
{
    Err(VMError::Internal(msg.to_owned()))
}

/// The printable name of an instruction in error messages.
pub open spec fn op_name_v(op: Op) -> Seq<char> {
    match op {
        Op::Add => "Add"@,
        Op::Subtract => "Subtract"@,
        Op::Multiply => "Multiply"@,
        Op::Divide => "Divide"@,
        _ => "Op"@,
    }
}

/// The printable name of an instruction, for error messages.
fn op_name(op: Op) -> (r: String)
    ensures
        r@ == op_name_v(op),
{
    match op {
        Op::Add => "Add".to_owned(),
        Op::Subtract => "Subtract".to_owned(),
        Op::Multiply => "Multiply".to_owned(),
        Op::Divide => "Divide".to_owned(),
        _ => "Op".to_owned(),
    }
}

/// Whether an ordering outcome satisfies a comparison instruction.
fn ord_matches(op: Op, ord: Ordering) -> (r: bool)
    ensures
        r == comp_matches(op, ord),
{
    match op {
        Op::Equal => matches!(ord, Ordering::Equal),
        Op::Less => matches!(ord, Ordering::Less),
        Op::Greater => matches!(ord, Ordering::Greater),
        Op::LessEqual => matches!(ord, Ordering::Less | Ordering::Equal),
        Op::GreaterEqual => matches!(ord, Ordering::Greater | Ordering::Equal),
        _ => false,
    }
}

/// Applies one binary arithmetic instruction to its two operands, the first
/// the left one, and turns the error sentinel into a runtime type error that
/// names the instruction and both operand kinds.
fn binary_operator(op: Op, v1: Value, v2: Value) -> (r: Result<Value, VMError>)
    requires
        op is Add || op is Subtract || op is Multiply || op is Divide,
    ensures
        match r {
            Ok(v) => v@ == apply_binary(op, v1@, v2@) && !(v@ is Error),
            Err(e) => e matches VMError::Runtime(m) && apply_binary(op, v1@, v2@) is Error
                && m@ == "operator "@ + op_name_v(op) + " is not usable with types "@
                + crate::bytecode::type_name_v(v1@) + " and "@ + crate::bytecode::type_name_v(
                v2@,
            ),
        },
{
    let s1 = v1.type_of();
    let s2 = v2.type_of();
    let x = match op {
        Op::Add => v1.add(v2),
        Op::Subtract => v1.sub(v2),
        Op::Multiply => v1.mul(v2),
        Op::Divide => v1.div(v2),
        _ => Value::VErr,
    };
    if x.is_err() {
        let mut msg = String::new();
        msg.append("operator ");
        let name = op_name(op);
        msg.append(name.as_str());
        msg.append(" is not usable with types ");
        msg.append(s1.as_str());
        msg.append(" and ");
        msg.append(s2.as_str());
        Err(VMError::Runtime(msg))
    } else {
        Ok(x)
    }
}

/// Resolves a chained comparison over operands given in source order: each
/// adjacent pair must satisfy the comparison, the first failing pair settles
/// the answer as false, and a pair with no defined order is a type error.
fn comparison_operator(op: Op, vals: Vec<Value>) -> (r: Result<Value, VMError>)
    requires
        op is Equal || op is LessEqual || op is GreaterEqual || op is Less || op is Greater,
    ensures
        match r {
            Ok(v) => {
                &&& vals@.len() > 0
                &&& chain_compare(op, models_of(vals@)) matches Some(b) && v@ == ValueV::Bool(b)
            },
            Err(e) => {
                &&& e matches VMError::Runtime(m) && (vals@.len() == 0 || chain_compare(
                    op,
                    models_of(vals@),
                ) is None)
                &&& e matches VMError::Runtime(m) && if vals@.len() == 0 {
                    m@ == "no arguments found for comparison"@
                } else {
                    m@ == "type error on comparison operator"@
                }
            },
        },
{
    broadcast use crate::bytecode::group_value_view;

    let total = vals.len();
    if total == 0 {
        return err("no arguments found for comparison");
    }
    let ghost m = models_of(vals@);
    let mut i: usize = 0;
    proof {
        assert(m.skip(0) =~= m);
    }
    while i + 1 < total
        invariant
            total == vals@.len(),
            m == models_of(vals@),
            i < total,
            chain_compare(op, m) == chain_compare(op, m.skip(i as int)),
        decreases total - i,
    {
        let cmp = vals[i].partial_cmp(&vals[i + 1]);
        match cmp {
            None => {
                proof {
                    assert(m.skip(i as int)[0] == m[i as int]);
                    assert(m.skip(i as int)[1] == m[i as int + 1]);
                }
                return err("type error on comparison operator");
            },
            Some(ord) => {
                if !ord_matches(op, ord) {
                    proof {
                        assert(m.skip(i as int)[0] == m[i as int]);
                        assert(m.skip(i as int)[1] == m[i as int + 1]);
                    }
                    proof {
                        crate::bytecode::lemma_view_bool(false);
                    }
                    return Ok(Value::VBool(false));
                }
                proof {
                    assert(m.skip(i as int)[0] == m[i as int]);
                    assert(m.skip(i as int)[1] == m[i as int + 1]);
                    assert(m.skip(i as int).drop_first() =~= m.skip(i as int + 1));
                }
                i = i + 1;
            },
        }
    }
    proof {
        assert(m.skip(i as int).len() == 1);
        crate::bytecode::lemma_view_bool(true);
    }
    Ok(Value::VBool(true))
}

impl VM {
    /// Executes the chunk from the current state until a return instruction
    /// hands back the top of the stack, a type error in the program stops it
    /// (`Runtime`), or malformed bytecode stops it (`Internal`).  The
    /// outcome is exactly what iterating the machine's transition function
    /// from the starting state yields; the one exception is a stream that is
    /// still running after `usize::MAX` steps, which no compiled program
    /// reaches, reported as an internal failure.
    #[verifier::rlimit(100)]
    pub fn run(&mut self) -> (r: Result<Value, VMError>)
        ensures
            final(self).chunk_v() == old(self).chunk_v(),
            match r {
                Ok(v) => reaches(old(self).chunk_v(), old(self).state_m(), StepV::Done(v@)),
                Err(e) => match e {
                    VMError::Runtime(_) => reaches(
                        old(self).chunk_v(),
                        old(self).state_m(),
                        StepV::RuntimeFail,
                    ),
                    VMError::Internal(_) => reaches(
                        old(self).chunk_v(),
                        old(self).state_m(),
                        StepV::InternalFail,
                    ) || run_steps(
                        old(self).chunk_v(),
                        old(self).state_m(),
                        usize::MAX as nat,
                    ) is Next,
                    VMError::Compile(_) => false,
                },
            },
    {
        broadcast use crate::bytecode::group_models;
        broadcast use crate::bytecode::group_value_view;

        let ghost c0 = self.chunk_v();
        let ghost s0 = self.state_m();
        let ghost mut n: nat = 0;
        let mut fuel: usize = usize::MAX;
        loop
            invariant
                c0 == old(self).chunk_v(),
                s0 == old(self).state_m(),
                self.chunk_v() == c0,
                n == usize::MAX - fuel,
                run_steps(c0, s0, n) == StepV::Next(self.state_m()),
            decreases fuel,
        {
            if fuel == 0 {
                return internal("step budget exhausted");
            }
            fuel = fuel - 1;
            let ghost pre = self.state_m();
            proof {
                lemma_run_steps_snoc(c0, s0, n);
            }
            let clen = self.c.get_count();
            if self.ip >= clen {
                proof {
                    assert(run_steps(c0, s0, n + 1) == StepV::InternalFail);
                }
                return internal("instruction pointer out of range");
            }
            let b = self.c.byte_at(self.ip);
            let op = match Op::from_lit(b) {
                None => {
                    proof {
                    assert(run_steps(c0, s0, n + 1) == StepV::InternalFail);
                }
                return internal("not an instruction");
                },
                Some(op) => op,
            };
            match op {
                Op::Return => {
                    match self.stack.pop() {
                        None => {
                            proof {
                    assert(run_steps(c0, s0, n + 1) == StepV::InternalFail);
                }
                return internal("stack empty at return");
                        },
                        Some(v) => {
                            proof {
                                assert(v@ == pre.stack.last());
                                assert(run_steps(c0, s0, n + 1) == StepV::Done(v@));
                            }
                            return Ok(v);
                        },
                    }
                },
                Op::NoOp => {
                    self.ip = self.ip + 1;
                },
                Op::Discard1 => {
                    match self.stack.pop() {
                        None => {
                            proof {
                    assert(run_steps(c0, s0, n + 1) == StepV::InternalFail);
                }
                return internal("stack empty at discard");
                        },
                        Some(_) => {
                            proof {
                                assert(models_of(self.stack@) =~= pre.stack.drop_last());
                            }
                            self.ip = self.ip + 1;
                        },
                    }
                },
                Op::Discard => {
                    if clen - self.ip < 2 {
                        proof {
                    assert(run_steps(c0, s0, n + 1) == StepV::InternalFail);
                }
                return internal("discard without operand");
                    }
                    let amount = self.c.byte_at(self.ip + 1) as usize;
                    if self.stack.len() < amount {
                        proof {
                    assert(run_steps(c0, s0, n + 1) == StepV::InternalFail);
                }
                return internal("stack underflow at discard");
                    }
                    let keep = self.stack.len() - amount;
                    self.stack.truncate(keep);
                    proof {
                        assert(models_of(self.stack@) =~= pre.stack.take(
                            pre.stack.len() - amount,
                        ));
                    }
                    self.ip = self.ip + 2;
                },
                Op::Const1 | Op::Const2 | Op::Const3 => {
                    match self.c.read_constant(self.ip) {
                        None => {
                            proof {
                    assert(run_steps(c0, s0, n + 1) == StepV::InternalFail);
                }
                return internal("no constant at this offset");
                        },
                        Some(v) => {
                            let w: usize = match op {
                                Op::Const1 => 1,
                                Op::Const2 => 2,
                                _ => 3,
                            };
                            proof {
                                assert(decoded_const(c0.code, pre.ip)->Some_0.1 == w as int);
                            }
                            self.stack.push(v);
                            proof {
                                assert(models_of(self.stack@) =~= pre.stack.push(
                                    c0.values[decoded_const(c0.code, pre.ip)->Some_0.0],
                                ));
                            }
                            self.ip = self.ip + 1 + w;
                        },
                    }
                },
                Op::Negate => {
                    match self.stack.pop() {
                        None => {
                            proof {
                    assert(run_steps(c0, s0, n + 1) == StepV::InternalFail);
                }
                return internal("stack empty at negate");
                        },
                        Some(v) => {
                            let nv = v.neg();
                            if nv.is_err() {
                                proof {
                                    assert(run_steps(c0, s0, n + 1) == StepV::RuntimeFail);
                                }
                                return err("value is not negatable");
                            }
                            self.stack.push(nv);
                            proof {
                                assert(models_of(self.stack@) =~= pre.stack.drop_last().push(
                                    neg_v(pre.stack.last()),
                                ));
                            }
                            self.ip = self.ip + 1;
                        },
                    }
                },
                Op::Car => {
                    match self.stack.pop() {
                        None => {
                            proof {
                    assert(run_steps(c0, s0, n + 1) == StepV::InternalFail);
                }
                return internal("stack empty at car");
                        },
                        Some(v) => {
                        proof {
                            crate::bytecode::lemma_view_cases(&v);
                        }
                        match v {
                            Value::VList(l) => {
                                match l.head() {
                                    None => {
                                        proof {
                                            assert(run_steps(c0, s0, n + 1)
                                                == StepV::RuntimeFail);
                                        }
                                        return err("car of an empty list");
                                    },
                                    Some(x) => {
                                        let h = x.clone();
                                        proof {
                                            assert(h@ == models_of(l@)[0]);
                                        }
                                        self.stack.push(h);
                                        proof {
                                            assert(models_of(self.stack@) =~= pre
                                                .stack.drop_last().push(models_of(l@)[0]));
                                        }
                                        self.ip = self.ip + 1;
                                    },
                                }
                            },
                            _ => {
                                proof {
                                    assert(run_steps(c0, s0, n + 1) == StepV::RuntimeFail);
                                }
                                return err("value is not car-able");
                            },
                        }
                        },
                    }
                },
                Op::Cdr => {
                    match self.stack.pop() {
                        None => {
                            proof {
                    assert(run_steps(c0, s0, n + 1) == StepV::InternalFail);
                }
                return internal("stack empty at cdr");
                        },
                        Some(v) => {
                        proof {
                            crate::bytecode::lemma_view_cases(&v);
                        }
                        match v {
                            Value::VList(l) => {
                                let t = l.tail();
                                proof {
                                    assert(models_of(t@) =~= tail_of(models_of(l@)));
                                }
                                let pushed = Value::VList(t);
                                proof {
                                    crate::bytecode::lemma_view_cases(&pushed);
                                }
                                self.stack.push(pushed);
                                proof {
                                    assert(models_of(self.stack@) =~= pre.stack.drop_last().push(
                                        ValueV::VList(tail_of(models_of(l@))),
                                    ));
                                }
                                self.ip = self.ip + 1;
                            },
                            _ => {
                                proof {
                                    assert(run_steps(c0, s0, n + 1) == StepV::RuntimeFail);
                                }
                                return err("value is not cdr-able");
                            },
                        }
                        },
                    }
                },
                Op::Cons => {
                    let elem = match self.stack.pop() {
                        None => {
                            proof {
                    assert(run_steps(c0, s0, n + 1) == StepV::InternalFail);
                }
                return internal("stack empty at cons");
                        },
                        Some(v) => v,
                    };
                    let lst = match self.stack.pop() {
                        None => {
                            proof {
                    assert(run_steps(c0, s0, n + 1) == StepV::InternalFail);
                }
                return internal("stack underflow at cons");
                        },
                        Some(v) => v,
                    };
                    proof {
                        crate::bytecode::lemma_view_cases(&lst);
                    }
                    match lst {
                        Value::VList(l) => {
                            let newl = List::cons(elem, &l);
                            proof {
                                assert(models_of(newl@) =~= seq![pre.stack.last()] + models_of(
                                    l@,
                                ));
                            }
                            let pushed = Value::VList(newl);
                            proof {
                                crate::bytecode::lemma_view_cases(&pushed);
                                assert(pushed@ == ValueV::VList(
                                    seq![pre.stack.last()] + models_of(l@),
                                ));
                            }
                            self.stack.push(pushed);
                            proof {
                                assert(models_of(self.stack@) =~= pre.stack.take(
                                    pre.stack.len() - 2,
                                ).push(pushed@));
                            }
                            self.ip = self.ip + 1;
                        },
                        _ => {
                            proof {
                                assert(run_steps(c0, s0, n + 1) == StepV::RuntimeFail);
                            }
                            return err("not a cons-able object");
                        },
                    }
                },
                Op::Add | Op::Subtract | Op::Multiply | Op::Divide => {
                    let v1 = match self.stack.pop() {
                        None => {
                            proof {
                    assert(run_steps(c0, s0, n + 1) == StepV::InternalFail);
                }
                return internal("stack empty at arithmetic");
                        },
                        Some(v) => v,
                    };
                    let v2 = match self.stack.pop() {
                        None => {
                            proof {
                    assert(run_steps(c0, s0, n + 1) == StepV::InternalFail);
                }
                return internal("stack underflow at arithmetic");
                        },
                        Some(v) => v,
                    };
                    match binary_operator(op, v1, v2) {
                        Ok(v) => {
                            self.stack.push(v);
                            proof {
                                assert(models_of(self.stack@) =~= pre.stack.take(
                                    pre.stack.len() - 2,
                                ).push(apply_binary(op, pre.stack.last(), pre.stack[pre.stack.len() - 2])));
                            }
                            self.ip = self.ip + 1;
                        },
                        Err(e) => {
                            proof {
                                assert(run_steps(c0, s0, n + 1) == StepV::RuntimeFail);
                            }
                            return Err(e);
                        },
                    }
                },
                Op::Equal | Op::LessEqual | Op::GreaterEqual | Op::Less | Op::Greater => {
                    if clen - self.ip < 2 {
                        proof {
                    assert(run_steps(c0, s0, n + 1) == StepV::InternalFail);
                }
                return internal("comparison without operand");
                    }
                    let count = self.c.byte_at(self.ip + 1) as usize;
                    if self.stack.len() < count {
                        proof {
                            assert(run_steps(c0, s0, n + 1) == StepV::InternalFail);
                        }
                        return internal("stack underflow at comparison");
                    }
                    let ghost stack0 = self.stack@;
                    let mut params: Vec<Value> = Vec::new();
                    let mut j: usize = 0;
                    while j < count
                        invariant
                            j <= count <= stack0.len(),
                            self.stack@ == stack0.subrange(0, stack0.len() - j),
                            params@.len() == j,
                            models_of(params@) == popped_n(models_of(stack0), count as int).take(
                                j as int,
                            ),
                            self.chunk_v() == c0,
                            self.ip == pre.ip,
                            self.stack_frames@.map_values(|u: usize| u as int) == pre.frames,
                        decreases count - j,
                    {
                        match self.stack.pop() {
                            None => {
                                proof {
                                    assert(false);
                                }
                                return internal("stack underflow at comparison");
                            },
                            Some(v) => {
                                params.push(v);
                                proof {
                                    assert(models_of(params@) =~= popped_n(
                                        models_of(stack0),
                                        count as int,
                                    ).take(j as int + 1));
                                    assert(self.stack@ =~= stack0.subrange(
                                        0,
                                        stack0.len() - (j + 1),
                                    ));
                                }
                                j = j + 1;
                            },
                        }
                    }
                    proof {
                        assert(models_of(params@) =~= popped_n(pre.stack, count as int));
                    }
                    if count == 0 {
                        proof {
                            assert(run_steps(c0, s0, n + 1) == StepV::RuntimeFail);
                        }
                        return err("no arguments found for comparison");
                    }
                    match comparison_operator(op, params) {
                        Ok(v) => {
                            self.stack.push(v);
                            proof {
                                assert(models_of(self.stack@) =~= pre.stack.take(
                                    pre.stack.len() - count,
                                ).push(v@));
                            }
                            self.ip = self.ip + 2;
                        },
                        Err(e) => {
                            proof {
                                assert(run_steps(c0, s0, n + 1) == StepV::RuntimeFail);
                            }
                            return Err(e);
                        },
                    }
                },
                Op::Jump | Op::JumpTrue => {
                    if clen - self.ip < 2 {
                        proof {
                    assert(run_steps(c0, s0, n + 1) == StepV::InternalFail);
                }
                return internal("jump without operand");
                    }
                    let b1 = self.c.byte_at(self.ip + 1);
                    let amount: i64 = if b1 < 128 {
                        b1 as i64
                    } else {
                        (b1 as i64) - 256
                    };
                    proof {
                        assert(amount == byte_signed(b1));
                    }
                    let taken: bool = match op {
                        Op::Jump => true,
                        _ => {
                            let cond = match self.stack.pop() {
                                None => {
                                    proof {
                    assert(run_steps(c0, s0, n + 1) == StepV::InternalFail);
                }
                return internal("stack empty at jump");
                                },
                                Some(v) => v,
                            };
                            proof {
                                assert(models_of(self.stack@) =~= pre.stack.drop_last());
                            }
                            if cond.is_err() {
                                proof {
                    assert(run_steps(c0, s0, n + 1) == StepV::InternalFail);
                }
                return internal("error sentinel on the stack");
                            }
                            cond.is_truthy()
                        },
                    };
                    if taken {
                        let t: i128 = (self.ip as i128) + 2 + (amount as i128);
                        if t < 0 || t > (usize::MAX as i128) {
                            proof {
                                let bad = VmState {
                                    ip: pre.ip + 2 + byte_signed(b1),
                                    stack: self.state_m().stack,
                                    frames: pre.frames,
                                };
                                assert(run_steps(c0, s0, n + 1) == StepV::Next(bad));
                                lemma_run_steps_snoc(c0, s0, n + 1);
                                assert(step(c0, bad) == StepV::InternalFail);
                                assert(run_steps(c0, s0, n + 2) == StepV::InternalFail);
                            }
                            return internal("jump target out of range");
                        }
                        self.ip = t as usize;
                    } else {
                        self.ip = self.ip + 2;
                    }
                },
                Op::Load => {
                    if clen - self.ip < 3 {
                        proof {
                    assert(run_steps(c0, s0, n + 1) == StepV::InternalFail);
                }
                return internal("load without operands");
                    }
                    let slot = self.c.byte_at(self.ip + 1) as usize;
                    let depth = self.c.byte_at(self.ip + 2) as usize;
                    if depth + 1 > self.stack_frames.len() {
                        proof {
                    assert(run_steps(c0, s0, n + 1) == StepV::InternalFail);
                }
                return internal("frame depth out of range");
                    }
                    let base = self.stack_frames[self.stack_frames.len() - 1 - depth];
                    if slot >= self.stack.len() || base >= self.stack.len() - slot {
                        proof {
                    assert(run_steps(c0, s0, n + 1) == StepV::InternalFail);
                }
                return internal("load address out of range");
                    }
                    let cell = base + slot;
                    let v = self.stack[cell].clone();
                    self.stack.push(v);
                    proof {
                        assert(models_of(self.stack@) =~= pre.stack.push(pre.stack[cell as int]));
                    }
                    self.ip = self.ip + 3;
                },
                Op::Store => {
                    if clen - self.ip < 3 {
                        proof {
                    assert(run_steps(c0, s0, n + 1) == StepV::InternalFail);
                }
                return internal("store without operands");
                    }
                    let value = match self.stack.pop() {
                        None => {
                            proof {
                    assert(run_steps(c0, s0, n + 1) == StepV::InternalFail);
                }
                return internal("stack empty at store");
                        },
                        Some(v) => v,
                    };
                    let slot = self.c.byte_at(self.ip + 1) as usize;
                    let depth = self.c.byte_at(self.ip + 2) as usize;
                    if depth + 1 > self.stack_frames.len() {
                        proof {
                    assert(run_steps(c0, s0, n + 1) == StepV::InternalFail);
                }
                return internal("frame depth out of range");
                    }
                    let base = self.stack_frames[self.stack_frames.len() - 1 - depth];
                    if slot >= self.stack.len() || base >= self.stack.len() - slot {
                        proof {
                    assert(run_steps(c0, s0, n + 1) == StepV::InternalFail);
                }
                return internal("store address out of range");
                    }
                    let cell = base + slot;
                    let dup = value.clone();
                    self.stack.set(cell, dup);
                    self.stack.push(value);
                    proof {
                        assert(models_of(self.stack@) =~= pre.stack.drop_last().update(
                            cell as int,
                            pre.stack.last(),
                        ).push(pre.stack.last()));
                    }
                    self.ip = self.ip + 3;
                },
                Op::CreateFrame => {
                    let l = self.stack.len();
                    self.stack_frames.push(l);
                    proof {
                        assert(self.stack_frames@.map_values(|u: usize| u as int) =~= pre
                            .frames.push(pre.stack.len() as int));
                    }
                    self.ip = self.ip + 1;
                },
                Op::DropFrame => {
                    match self.stack_frames.pop() {
                        None => {
                            proof {
                    assert(run_steps(c0, s0, n + 1) == StepV::InternalFail);
                }
                return internal("empty frame stack");
                        },
                        Some(s) => {
                            proof {
                                assert(self.stack_frames@.map_values(|u: usize| u as int) =~= pre
                                    .frames.drop_last());
                                assert(s as int == pre.frames.last());
                            }
                            self.stack.truncate(s);
                            proof {
                                assert(models_of(self.stack@) =~= pre.stack.take(
                                    clamp_to(pre.frames.last(), pre.stack.len() as int),
                                ));
                            }
                            self.ip = self.ip + 1;
                        },
                    }
                },
                Op::DropFrameSaveReturn => {
                    let v = match self.stack.pop() {
                        None => {
                            proof {
                    assert(run_steps(c0, s0, n + 1) == StepV::InternalFail);
                }
                return internal("stack empty at frame drop");
                        },
                        Some(v) => v,
                    };
                    match self.stack_frames.pop() {
                        None => {
                            proof {
                    assert(run_steps(c0, s0, n + 1) == StepV::InternalFail);
                }
                return internal("empty frame stack");
                        },
                        Some(s) => {
                            proof {
                                assert(self.stack_frames@.map_values(|u: usize| u as int) =~= pre
                                    .frames.drop_last());
                                assert(s as int == pre.frames.last());
                            }
                            self.stack.truncate(s);
                            proof {
                                assert(models_of(self.stack@) =~= pre.stack.drop_last().take(
                                    clamp_to(
                                        pre.frames.last(),
                                        pre.stack.drop_last().len() as int,
                                    ),
                                ));
                            }
                            self.stack.push(v);
                            proof {
                                assert(models_of(self.stack@) =~= pre.stack.drop_last().take(
                                    clamp_to(
                                        pre.frames.last(),
                                        pre.stack.drop_last().len() as int,
                                    ),
                                ).push(pre.stack.last()));
                            }
                            self.ip = self.ip + 1;
                        },
                    }
                },
            }
            proof {
                assert(step(c0, pre) == StepV::Next(self.state_m()));
                n = n + 1;
            }
        }
    }
}

} // verus!
