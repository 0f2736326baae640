//! Instruction opcodes and the tagged runtime value.
//!
//! An `Op` is encoded as a single byte through an explicit, exhaustive
//! mapping (`to_lit` / `from_lit`); nothing relies on the memory layout of
//! the enum.  A `Value` is modelled by `ValueV`, a mathematical tree of
//! integers, character sequences, booleans and sequences; every contract in
//! the crate speaks of that model.

use core::cmp::Ordering;
use std::rc::Rc;
use vstd::prelude::*;

use crate::ast::list::{link_view, List, Node};

verus! {

/// One instruction unit of the byte-oriented instruction stream.
#[derive(Debug, Copy, Clone, PartialEq, Eq, Structural)]
pub enum Op {
    Negate,
    Add,
    Subtract,
    Multiply,
    Divide,
    Car,
    Cdr,
    Cons,
    Equal,
    LessEqual,
    GreaterEqual,
    Less,
    Greater,
    Discard,
    Discard1,
    Return,
    Const1,
    Const2,
    Const3,
    Load,
    Store,
    CreateFrame,
    DropFrame,
    DropFrameSaveReturn,
    Jump,
    JumpTrue,
    NoOp,
}

/// The byte that encodes each opcode.
pub open spec fn op_code(op: Op) -> u8 {
    match op {
        Op::Negate => 0,
        Op::Add => 1,
        Op::Subtract => 2,
        Op::Multiply => 3,
        Op::Divide => 4,
        Op::Car => 5,
        Op::Cdr => 6,
        Op::Cons => 7,
        Op::Equal => 8,
        Op::LessEqual => 9,
        Op::GreaterEqual => 10,
        Op::Less => 11,
        Op::Greater => 12,
        Op::Discard => 13,
        Op::Discard1 => 14,
        Op::Return => 15,
        Op::Const1 => 16,
        Op::Const2 => 17,
        Op::Const3 => 18,
        Op::Load => 19,
        Op::Store => 20,
        Op::CreateFrame => 21,
        Op::DropFrame => 22,
        Op::DropFrameSaveReturn => 23,
        Op::Jump => 24,
        Op::JumpTrue => 25,
        Op::NoOp => 26,
    }
}

/// The opcode a byte stands for, if any.
pub open spec fn op_from_code(b: u8) -> Option<Op> {
    if b == 0 {
        Some(Op::Negate)
    } else if b == 1 {
        Some(Op::Add)
    } else if b == 2 {
        Some(Op::Subtract)
    } else if b == 3 {
        Some(Op::Multiply)
    } else if b == 4 {
        Some(Op::Divide)
    } else if b == 5 {
        Some(Op::Car)
    } else if b == 6 {
        Some(Op::Cdr)
    } else if b == 7 {
        Some(Op::Cons)
    } else if b == 8 {
        Some(Op::Equal)
    } else if b == 9 {
        Some(Op::LessEqual)
    } else if b == 10 {
        Some(Op::GreaterEqual)
    } else if b == 11 {
        Some(Op::Less)
    } else if b == 12 {
        Some(Op::Greater)
    } else if b == 13 {
        Some(Op::Discard)
    } else if b == 14 {
        Some(Op::Discard1)
    } else if b == 15 {
        Some(Op::Return)
    } else if b == 16 {
        Some(Op::Const1)
    } else if b == 17 {
        Some(Op::Const2)
    } else if b == 18 {
        Some(Op::Const3)
    } else if b == 19 {
        Some(Op::Load)
    } else if b == 20 {
        Some(Op::Store)
    } else if b == 21 {
        Some(Op::CreateFrame)
    } else if b == 22 {
        Some(Op::DropFrame)
    } else if b == 23 {
        Some(Op::DropFrameSaveReturn)
    } else if b == 24 {
        Some(Op::Jump)
    } else if b == 25 {
        Some(Op::JumpTrue)
    } else if b == 26 {
        Some(Op::NoOp)
    } else {
        None
    }
}

impl Op {
    /// The byte encoding of an opcode.
    pub fn to_lit(&self) -> (r: u8)
        ensures
            r == op_code(*self),
    {
        match self {
            Op::Negate => 0,
            Op::Add => 1,
            Op::Subtract => 2,
            Op::Multiply => 3,
            Op::Divide => 4,
            Op::Car => 5,
            Op::Cdr => 6,
            Op::Cons => 7,
            Op::Equal => 8,
            Op::LessEqual => 9,
            Op::GreaterEqual => 10,
            Op::Less => 11,
            Op::Greater => 12,
            Op::Discard => 13,
            Op::Discard1 => 14,
            Op::Return => 15,
            Op::Const1 => 16,
            Op::Const2 => 17,
            Op::Const3 => 18,
            Op::Load => 19,
            Op::Store => 20,
            Op::CreateFrame => 21,
            Op::DropFrame => 22,
            Op::DropFrameSaveReturn => 23,
            Op::Jump => 24,
            Op::JumpTrue => 25,
            Op::NoOp => 26,
        }
    }

    /// The opcode a byte decodes to, or `None` for a byte outside the range.
    pub fn from_lit(val: u8) -> (r: Option<Op>)
        ensures
            r == op_from_code(val),
    {
        if val == 0 {
            Some(Op::Negate)
        } else if val == 1 {
            Some(Op::Add)
        } else if val == 2 {
            Some(Op::Subtract)
        } else if val == 3 {
            Some(Op::Multiply)
        } else if val == 4 {
            Some(Op::Divide)
        } else if val == 5 {
            Some(Op::Car)
        } else if val == 6 {
            Some(Op::Cdr)
        } else if val == 7 {
            Some(Op::Cons)
        } else if val == 8 {
            Some(Op::Equal)
        } else if val == 9 {
            Some(Op::LessEqual)
        } else if val == 10 {
            Some(Op::GreaterEqual)
        } else if val == 11 {
            Some(Op::Less)
        } else if val == 12 {
            Some(Op::Greater)
        } else if val == 13 {
            Some(Op::Discard)
        } else if val == 14 {
            Some(Op::Discard1)
        } else if val == 15 {
            Some(Op::Return)
        } else if val == 16 {
            Some(Op::Const1)
        } else if val == 17 {
            Some(Op::Const2)
        } else if val == 18 {
            Some(Op::Const3)
        } else if val == 19 {
            Some(Op::Load)
        } else if val == 20 {
            Some(Op::Store)
        } else if val == 21 {
            Some(Op::CreateFrame)
        } else if val == 22 {
            Some(Op::DropFrame)
        } else if val == 23 {
            Some(Op::DropFrameSaveReturn)
        } else if val == 24 {
            Some(Op::Jump)
        } else if val == 25 {
            Some(Op::JumpTrue)
        } else if val == 26 {
            Some(Op::NoOp)
        } else {
            None
        }
    }
}

/// Decoding inverts encoding: every opcode byte reads back as the same opcode.
pub proof fn lemma_op_code_round_trip(op: Op)
    ensures
        op_from_code(op_code(op)) == Some(op),
{
}

/// A runtime value.
#[derive(Debug)]
pub enum Value {
    VInt(isize),
    VString(String),
    VBool(bool),
    VList(List<Value>),
    VErr,
}

/// The mathematical model of a runtime value.
pub ghost enum ValueV {
    Int(int),
    Str(Seq<char>),
    Bool(bool),
    VList(Seq<ValueV>),
    Error,
}

spec fn link_model(l: Option<Rc<Node<Value>>>) -> Seq<ValueV>
    decreases l,
{
    match l {
        None => Seq::empty(),
        Some(n) => seq![value_model((*n).elm)] + link_model((*n).next),
    }
}

spec fn value_model(v: Value) -> ValueV
    decreases v,
{
    match v {
        Value::VInt(i) => ValueV::Int(i as int),
        Value::VString(s) => ValueV::Str(s@),
        Value::VBool(b) => ValueV::Bool(b),
        Value::VList(l) => ValueV::VList(link_model(l.head)),
        Value::VErr => ValueV::Error,
    }
}

impl View for Value {
    type V = ValueV;

    closed spec fn view(&self) -> ValueV {
        value_model(*self)
    }
}

/// The model of a list of values, element by element.
pub open spec fn models_of(s: Seq<Value>) -> Seq<ValueV> {
    s.map_values(|v: Value| v@)
}

proof fn lemma_link_model_view(l: &Option<Rc<Node<Value>>>)
    ensures
        link_model(*l) == models_of(link_view(*l)),
    decreases *l,
{
    match l {
        None => {
            assert(link_model(*l) =~= models_of(link_view(*l)));
        },
        Some(n) => {
            lemma_link_model_view(&(*n).next);
            assert(link_model(*l) =~= models_of(link_view(*l)));
        },
    }
}

/// What the model of each kind of value is.
pub broadcast proof fn lemma_view_int(i: isize)
    ensures
        (#[trigger] (Value::VInt(i))@) == ValueV::Int(i as int),
{
}

pub broadcast proof fn lemma_view_string(s: String)
    ensures
        (#[trigger] (Value::VString(s))@) == ValueV::Str(s@),
{
}

pub broadcast proof fn lemma_view_bool(b: bool)
    ensures
        (#[trigger] (Value::VBool(b))@) == ValueV::Bool(b),
{
}

/// The model of a list value is the model of each of its elements, in order.
pub broadcast proof fn lemma_view_list(l: List<Value>)
    ensures
        (#[trigger] (Value::VList(l))@) == ValueV::VList(models_of(l@)),
{
    crate::ast::list::lemma_view_is_link_view(&l);
    lemma_link_model_view(&l.head);
}

/// What the model of a value is, case by case.
pub proof fn lemma_view_cases(v: &Value)
    ensures
        match *v {
            Value::VInt(i) => v@ == ValueV::Int(i as int),
            Value::VString(s) => v@ == ValueV::Str(s@),
            Value::VBool(b) => v@ == ValueV::Bool(b),
            Value::VList(l) => v@ == ValueV::VList(models_of(l@)),
            Value::VErr => v@ == ValueV::Error,
        },
{
    match v {
        Value::VList(l) => {
            crate::ast::list::lemma_view_is_link_view(l);
            lemma_link_model_view(&l.head);
        },
        _ => {},
    }
}

pub broadcast group group_value_view {
    lemma_view_int,
    lemma_view_string,
    lemma_view_bool,
    lemma_view_list,
}

/// Whether a value counts as true.  A string or an integer is true when it
/// is not empty or zero; a list is true exactly when it is empty — the
/// inverse of the common convention, and deliberately so.
pub open spec fn truthy_v(v: ValueV) -> bool {
    match v {
        ValueV::Int(i) => i != 0,
        ValueV::Str(s) => s.len() > 0,
        ValueV::Bool(b) => b,
        ValueV::VList(l) => l.len() == 0,
        ValueV::Error => false,
    }
}

/// Arithmetic negation; defined for integers only.
pub open spec fn neg_v(v: ValueV) -> ValueV {
    match v {
        ValueV::Int(i) => if isize::MIN <= -i <= isize::MAX {
            ValueV::Int(-i)
        } else {
            ValueV::Error
        },
        _ => ValueV::Error,
    }
}

/// Addition: integer addition within machine bounds, or string concatenation.
pub open spec fn add_v(a: ValueV, b: ValueV) -> ValueV {
    match (a, b) {
        (ValueV::Int(x), ValueV::Int(y)) => if isize::MIN <= x + y <= isize::MAX {
            ValueV::Int(x + y)
        } else {
            ValueV::Error
        },
        (ValueV::Str(s1), ValueV::Str(s2)) => ValueV::Str(s1 + s2),
        _ => ValueV::Error,
    }
}

/// Subtraction is defined as addition of the negation.
pub open spec fn sub_v(a: ValueV, b: ValueV) -> ValueV {
    add_v(a, neg_v(b))
}

/// `s` repeated `n` times.
pub open spec fn repeat_str(s: Seq<char>, n: nat) -> Seq<char>
    decreases n,
{
    if n == 0 {
        Seq::empty()
    } else {
        repeat_str(s, (n - 1) as nat) + s
    }
}

/// Multiplication: integer product within bounds, or string repetition by a
/// positive count whose result fits in memory.
pub open spec fn mul_v(a: ValueV, b: ValueV) -> ValueV {
    match (a, b) {
        (ValueV::Int(x), ValueV::Int(y)) => if isize::MIN <= x * y <= isize::MAX {
            ValueV::Int(x * y)
        } else {
            ValueV::Error
        },
        (ValueV::Str(s), ValueV::Int(i)) => if 0 < i && s.len() * i <= usize::MAX {
            ValueV::Str(repeat_str(s, i as nat))
        } else {
            ValueV::Error
        },
        _ => ValueV::Error,
    }
}

/// Division truncating toward zero, the machine behaviour.
pub open spec fn trunc_div(x: int, d: int) -> int {
    if x == 0 {
        0
    } else if x > 0 && d > 0 {
        x / d
    } else if x < 0 && d < 0 {
        (x * -1) / (d * -1)
    } else if x < 0 {
        ((x * -1) / d) * -1
    } else {
        (x / (d * -1)) * -1
    }
}

/// Division: defined for integers with a nonzero divisor and an in-range
/// quotient; anything else is the error sentinel.
pub open spec fn div_v(a: ValueV, b: ValueV) -> ValueV {
    match (a, b) {
        (ValueV::Int(x), ValueV::Int(y)) => if y == 0 {
            ValueV::Error
        } else if isize::MIN <= trunc_div(x, y) <= isize::MAX {
            ValueV::Int(trunc_div(x, y))
        } else {
            ValueV::Error
        },
        _ => ValueV::Error,
    }
}

/// Lexicographic order on character sequences, by code point.
pub open spec fn str_cmp(a: Seq<char>, b: Seq<char>) -> Ordering
    decreases a.len(),
{
    if a.len() == 0 && b.len() == 0 {
        Ordering::Equal
    } else if a.len() == 0 {
        Ordering::Less
    } else if b.len() == 0 {
        Ordering::Greater
    } else if (a[0] as u32) < (b[0] as u32) {
        Ordering::Less
    } else if (a[0] as u32) > (b[0] as u32) {
        Ordering::Greater
    } else {
        str_cmp(a.drop_first(), b.drop_first())
    }
}

/// Ordering between values: only same-kind numerics and two strings are
/// ordered; everything else, booleans and lists included, has no order.
pub open spec fn cmp_v(a: ValueV, b: ValueV) -> Option<Ordering> {
    match (a, b) {
        (ValueV::Int(x), ValueV::Int(y)) => Some(
            if x < y {
                Ordering::Less
            } else if x == y {
                Ordering::Equal
            } else {
                Ordering::Greater
            },
        ),
        (ValueV::Str(s1), ValueV::Str(s2)) => Some(str_cmp(s1, s2)),
        _ => None,
    }
}

/// Equality between values: same-kind scalars compare by content; a list
/// never reports equal, a sentinel never reports equal.
pub open spec fn eq_v(a: ValueV, b: ValueV) -> bool {
    match (a, b) {
        (ValueV::Int(x), ValueV::Int(y)) => x == y,
        (ValueV::Str(s1), ValueV::Str(s2)) => s1 == s2,
        (ValueV::Bool(x), ValueV::Bool(y)) => x == y,
        _ => false,
    }
}

/// The printable name of a value's kind.
pub open spec fn type_name_v(v: ValueV) -> Seq<char> {
    match v {
        ValueV::Int(_) => "Int"@,
        ValueV::Str(_) => "String"@,
        ValueV::Bool(_) => "Bool"@,
        ValueV::VList(_) => "List"@,
        ValueV::Error => "Error"@,
    }
}

/// Element models distribute over appending an element.
pub broadcast proof fn lemma_models_push(s: Seq<Value>, v: Value)
    ensures
        #[trigger] models_of(s.push(v)) == models_of(s).push(v@),
{
    assert(models_of(s.push(v)) =~= models_of(s).push(v@));
}

/// Element models distribute over taking a subrange.
pub broadcast proof fn lemma_models_subrange(s: Seq<Value>, a: int, b: int)
    requires
        0 <= a <= b <= s.len(),
    ensures
        #[trigger] models_of(s.subrange(a, b)) == models_of(s).subrange(a, b),
{
    assert(models_of(s.subrange(a, b)) =~= models_of(s).subrange(a, b));
}

/// Element models distribute over updating one position.
pub broadcast proof fn lemma_models_update(s: Seq<Value>, i: int, v: Value)
    requires
        0 <= i < s.len(),
    ensures
        #[trigger] models_of(s.update(i, v)) == models_of(s).update(i, v@),
{
    assert(models_of(s.update(i, v)) =~= models_of(s).update(i, v@));
}

pub broadcast group group_models {
    lemma_models_push,
    lemma_models_subrange,
    lemma_models_update,
}

impl Clone for Value {
    /// Cloning preserves the model; a list's cells are shared, not copied.
    fn clone(&self) -> (r: Self)
        ensures
            r@ == self@,
    {
        match self {
            Value::VInt(i) => Value::VInt(*i),
            Value::VString(s) => Value::VString(s.clone()),
            Value::VBool(b) => Value::VBool(*b),
            Value::VList(l) => {
                let r = l.copy();
                proof {
                    crate::ast::list::lemma_view_is_link_view(l);
                    crate::ast::list::lemma_view_is_link_view(&r);
                    lemma_link_model_view(&l.head);
                    lemma_link_model_view(&r.head);
                }
                Value::VList(r)
            },
            Value::VErr => Value::VErr,
        }
    }
}

impl Value {
    /// The name of this value's kind.
    pub fn type_of(&self) -> (r: String)
        ensures
            r@ == type_name_v(self@),
    {
        match self {
            Value::VInt(_) => "Int".to_owned(),
            Value::VString(_) => "String".to_owned(),
            Value::VBool(_) => "Bool".to_owned(),
            Value::VList(_) => "List".to_owned(),
            Value::VErr => "Error".to_owned(),
        }
    }

    /// Whether this value counts as true; the sentinel has no truth value.
    pub fn is_truthy(&self) -> (r: bool)
        requires
            !(self@ is Error),
        ensures
            r == truthy_v(self@),
    {
        match self {
            Value::VInt(i) => *i != 0,
            Value::VString(s) => s.as_str().unicode_len() > 0,
            Value::VBool(b) => *b,
            Value::VList(l) => {
                proof {
                    crate::ast::list::lemma_view_is_link_view(l);
                    lemma_link_model_view(&l.head);
                }
                l.len() == 0
            },
            Value::VErr => false,
        }
    }

    /// Whether this value is the internal error sentinel.
    pub fn is_err(&self) -> (r: bool)
        ensures
            r == (self@ is Error),
    {
        match self {
            Value::VErr => true,
            _ => false,
        }
    }

    /// Arithmetic negation.
    pub fn neg(self) -> (r: Value)
        ensures
            r@ == neg_v(self@),
    {
        match self {
            Value::VInt(i) => match (0isize).checked_sub(i) {
                Some(x) => Value::VInt(x),
                None => Value::VErr,
            },
            _ => Value::VErr,
        }
    }

    /// Addition, or string concatenation.
    pub fn add(self, rhs: Value) -> (r: Value)
        ensures
            r@ == add_v(self@, rhs@),
    {
        match (self, rhs) {
            (Value::VInt(a), Value::VInt(b)) => match a.checked_add(b) {
                Some(x) => Value::VInt(x),
                None => Value::VErr,
            },
            (Value::VString(a), Value::VString(b)) => Value::VString(a.concat(b.as_str())),
            _ => Value::VErr,
        }
    }

    /// Subtraction: addition of the negation.
    pub fn sub(self, rhs: Value) -> (r: Value)
        ensures
            r@ == sub_v(self@, rhs@),
    {
        let n = rhs.neg();
        self.add(n)
    }

    /// Multiplication, or string repetition.
    pub fn mul(self, rhs: Value) -> (r: Value)
        ensures
            r@ == mul_v(self@, rhs@),
    {
        match (self, rhs) {
            (Value::VInt(a), Value::VInt(b)) => match a.checked_mul(b) {
                Some(x) => Value::VInt(x),
                None => Value::VErr,
            },
            (Value::VString(s), Value::VInt(i)) => {
                if i <= 0 {
                    Value::VErr
                } else {
                    let count: usize = i as usize;
                    let chars = s.as_str().unicode_len();
                    match chars.checked_mul(count) {
                        None => Value::VErr,
                        Some(_) => {
                            let mut out = String::new();
                            let mut k: usize = 0;
                            while k < count
                                invariant
                                    out@ == repeat_str(s@, k as nat),
                                    k <= count,
                                decreases count - k,
                            {
                                out.append(s.as_str());
                                k = k + 1;
                            }
                            Value::VString(out)
                        },
                    }
                }
            },
            _ => Value::VErr,
        }
    }

    /// Division.
    pub fn div(self, rhs: Value) -> (r: Value)
        ensures
            r@ == div_v(self@, rhs@),
    {
        match (self, rhs) {
            (Value::VInt(a), Value::VInt(b)) => match a.checked_div(b) {
                Some(x) => Value::VInt(x),
                None => Value::VErr,
            },
            _ => Value::VErr,
        }
    }
}

/// Lexicographic comparison of two strings, by code point.
fn cmp_strings(s1: &str, s2: &str) -> (r: Ordering)
    ensures
        r == str_cmp(s1@, s2@),
{
    let l1 = s1.unicode_len();
    let l2 = s2.unicode_len();
    let mut i: usize = 0;
    proof {
        assert(s1@.skip(0) =~= s1@);
        assert(s2@.skip(0) =~= s2@);
    }
    loop
        invariant
            i <= l1 && i <= l2,
            l1 == s1@.len() && l2 == s2@.len(),
            str_cmp(s1@, s2@) == str_cmp(s1@.skip(i as int), s2@.skip(i as int)),
        decreases l1 - i,
    {
        if i == l1 && i == l2 {
            return Ordering::Equal;
        }
        if i == l1 {
            return Ordering::Less;
        }
        if i == l2 {
            return Ordering::Greater;
        }
        let c1 = s1.get_char(i);
        let c2 = s2.get_char(i);
        if (c1 as u32) < (c2 as u32) {
            return Ordering::Less;
        }
        if (c1 as u32) > (c2 as u32) {
            return Ordering::Greater;
        }
        proof {
            assert(s1@.skip(i as int)[0] == s1@[i as int]);
            assert(s2@.skip(i as int)[0] == s2@[i as int]);
            assert(s1@.skip(i as int).drop_first() =~= s1@.skip(i as int + 1));
            assert(s2@.skip(i as int).drop_first() =~= s2@.skip(i as int + 1));
        }
        i = i + 1;
    }
}

impl PartialEq for Value {
    fn eq(&self, other: &Value) -> (r: bool) {
        match (self, other) {
            (Value::VInt(a), Value::VInt(b)) => *a == *b,
            (Value::VBool(a), Value::VBool(b)) => *a == *b,
            (Value::VString(a), Value::VString(b)) => *a == *b,
            _ => false,
        }
    }
}

impl vstd::std_specs::cmp::PartialEqSpecImpl for Value {
    open spec fn obeys_eq_spec() -> bool {
        true
    }

    open spec fn eq_spec(&self, other: &Value) -> bool {
        eq_v(self@, other@)
    }
}

impl PartialOrd for Value {
    fn partial_cmp(&self, other: &Value) -> (r: Option<Ordering>) {
        match (self, other) {
            (Value::VInt(a), Value::VInt(b)) => Some(
                if *a < *b {
                    Ordering::Less
                } else if *a == *b {
                    Ordering::Equal
                } else {
                    Ordering::Greater
                },
            ),
            (Value::VString(a), Value::VString(b)) => Some(cmp_strings(a.as_str(), b.as_str())),
            _ => None,
        }
    }
}

impl vstd::std_specs::cmp::PartialOrdSpecImpl for Value {
    open spec fn obeys_partial_cmp_spec() -> bool {
        true
    }

    open spec fn partial_cmp_spec(&self, other: &Value) -> Option<Ordering> {
        cmp_v(self@, other@)
    }
}

} // verus!
