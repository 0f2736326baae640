//! The compiled form of a program: a byte-oriented instruction stream, an
//! ordered constant pool, and a line-number index.
//!
//! A constant-load instruction stores its pool index in one, two or three
//! big-endian operand bytes, depending on how large the pool was when the
//! constant was added; `read_constant` decodes either form back exactly.

use vstd::prelude::*;

use crate::bytecode::{op_code, Op, Value, ValueV};

verus! {

/// The widest constant-load form holds three operand bytes, so no program
/// may declare more constants than this.
pub const MAX_CONSTANTS: usize = 16777216;

pub struct Chunk {
    code: Vec<u8>,
    lines: Vec<usize>,
    values: Vec<Value>,
}

/// The operand bytes that encode a pool index, together with the opcode
/// that announces their width.
pub open spec fn const_encoding(idx: int) -> Seq<u8> {
    if idx < 256 {
        seq![op_code(Op::Const1), idx as u8]
    } else if idx < 65536 {
        seq![op_code(Op::Const2), (idx / 256) as u8, (idx % 256) as u8]
    } else {
        seq![
            op_code(Op::Const3),
            (idx / 65536) as u8,
            ((idx / 256) % 256) as u8,
            (idx % 256) as u8,
        ]
    }
}

/// The pool index and operand width of the constant-load instruction at
/// position `i` of an instruction stream, if a well-formed one sits there.
pub open spec fn decoded_const(code: Seq<u8>, i: int) -> Option<(int, int)> {
    if 0 <= i < code.len() {
        if code[i] == op_code(Op::Const1) {
            if i + 2 <= code.len() {
                Some(((code[i + 1] as int), 1int))
            } else {
                None
            }
        } else if code[i] == op_code(Op::Const2) {
            if i + 3 <= code.len() {
                Some(((code[i + 1] as int) * 256 + (code[i + 2] as int), 2int))
            } else {
                None
            }
        } else if code[i] == op_code(Op::Const3) {
            if i + 4 <= code.len() {
                Some(
                    (
                        (code[i + 1] as int) * 65536 + (code[i + 2] as int) * 256 + (code[i
                            + 3] as int),
                        3int,
                    ),
                )
            } else {
                None
            }
        } else {
            None
        }
    } else {
        None
    }
}

/// How the line table grows when one instruction byte is appended at a
/// moment when the stream holds `code_len` bytes: a threshold is recorded
/// while the source line is ahead of the number of lines seen so far.
pub open spec fn line_push(lines: Seq<usize>, code_len: usize, line: usize) -> Seq<usize> {
    if line > lines.len() {
        lines.push(code_len)
    } else {
        lines
    }
}

/// The line table after `k` bytes were appended for source line `line`.
pub open spec fn lines_after(lines: Seq<usize>, code_len: usize, line: usize, k: nat) -> Seq<usize>
    decreases k,
{
    if k == 0 || code_len == usize::MAX {
        lines
    } else {
        lines_after(line_push(lines, code_len, line), (code_len + 1) as usize, line, (k - 1) as nat)
    }
}

/// The round trip of the constant-pool encoding: whatever instruction bytes
/// came before, a constant-load emitted for pool index `idx` decodes, at the
/// offset where it was emitted, back to exactly `idx` — across all three
/// operand widths, including the switch from the one-byte to the two-byte
/// form at index 256.
pub proof fn lemma_const_encoding_round_trip(code: Seq<u8>, idx: int)
    requires
        0 <= idx < MAX_CONSTANTS,
    ensures
        decoded_const(code + const_encoding(idx), code.len() as int) == Some(
            (idx, const_encoding(idx).len() - 1),
        ),
{
    let c2 = code + const_encoding(idx);
    let i = code.len() as int;
    vstd::arithmetic::div_mod::lemma_fundamental_div_mod(idx, 256);
    if idx < 256 {
        assert(c2[i] == op_code(Op::Const1));
        assert(c2[i + 1] == idx as u8);
    } else if idx < 65536 {
        assert(c2[i] == op_code(Op::Const2));
        assert(idx / 256 < 256) by {
            vstd::arithmetic::div_mod::lemma_multiply_divide_lt(idx, 256, 256);
        }
        assert((c2[i + 1] as int) == idx / 256);
        assert((c2[i + 2] as int) == idx % 256);
    } else {
        assert(c2[i] == op_code(Op::Const3));
        vstd::arithmetic::div_mod::lemma_fundamental_div_mod(idx / 256, 256);
        assert((idx / 256) / 256 == idx / 65536) by {
            vstd::arithmetic::div_mod::lemma_div_denominator(idx, 256, 256);
        }
        assert(idx / 65536 < 256) by {
            vstd::arithmetic::div_mod::lemma_multiply_divide_lt(idx, 65536, 256);
        }
        assert((c2[i + 1] as int) == idx / 65536);
        assert((c2[i + 2] as int) == (idx / 256) % 256);
        assert((c2[i + 3] as int) == idx % 256);
        assert((idx / 65536) * 65536 + ((idx / 256) % 256) * 256 + idx % 256 == idx) by {
            assert(idx == 256 * (idx / 256) + idx % 256);
            assert(idx / 256 == 256 * ((idx / 256) / 256) + (idx / 256) % 256);
        }
    }
}

proof fn lemma_lines_after_one(lines: Seq<usize>, code_len: usize, line: usize)
    requires
        code_len < usize::MAX,
    ensures
        lines_after(lines, code_len, line, 1) == line_push(lines, code_len, line),
{
    assert(lines_after(lines, code_len, line, 1) == lines_after(
        line_push(lines, code_len, line),
        (code_len + 1) as usize,
        line,
        0,
    ));
}

impl Chunk {
    /// The instruction stream, as bytes.
    pub closed spec fn code_m(&self) -> Seq<u8> {
        self.code@
    }

    /// The line table, as recorded.
    pub closed spec fn lines_m(&self) -> Seq<usize> {
        self.lines@
    }

    /// The models of the pooled constants, in pool order.
    pub closed spec fn values_m(&self) -> Seq<ValueV> {
        crate::bytecode::models_of(self.values@)
    }

    /// The internal shape every operation preserves: the line table is
    /// non-decreasing and each threshold lies within the stream.
    pub closed spec fn wf(&self) -> bool {
        &&& forall|j: int, k: int|
            0 <= j <= k < self.lines@.len() ==> self.lines@[j] <= self.lines@[k]
        &&& forall|j: int| 0 <= j < self.lines@.len() ==> self.lines@[j] <= self.code@.len()
    }

    /// Appends one raw instruction byte and keeps the line index in step.
    pub fn add_byte(&mut self, b: u8, line: usize) -> (r: usize)
        requires
            old(self).wf(),
            old(self).code_m().len() < usize::MAX,
        ensures
            final(self).wf(),
            final(self).code_m() == old(self).code_m().push(b),
            final(self).values_m() == old(self).values_m(),
            final(self).lines_m() == line_push(old(self).lines_m(), old(self).code_m().len() as usize, line),
            r == old(self).code_m().len(),
    {
        if line > self.lines.len() {
            let n = self.code.len();
            self.lines.push(n);
        }
        self.code.push(b);
        self.code.len() - 1
    }

    /// Appends one instruction and records line-table growth.
    pub fn add_op(&mut self, op: Op, line: usize) -> (r: usize)
        requires
            old(self).wf(),
            old(self).code_m().len() < usize::MAX,
        ensures
            final(self).wf(),
            final(self).code_m() == old(self).code_m().push(op_code(op)),
            final(self).values_m() == old(self).values_m(),
            final(self).lines_m() == line_push(old(self).lines_m(), old(self).code_m().len() as usize, line),
            r == old(self).code_m().len(),
    {
        let b = op.to_lit();
        self.add_byte(b, line)
    }

    /// Appends `val` to the pool and emits the constant-load instruction
    /// whose operand width fits the pool index; fails, changing nothing,
    /// when the pool is full.
    pub fn add_constant(&mut self, val: Value, line: usize) -> (r: Option<usize>)
        requires
            old(self).wf(),
            old(self).code_m().len() + 4 <= usize::MAX,
        ensures
            final(self).wf(),
            match r {
                Some(i) => {
                    &&& i == old(self).values_m().len()
                    &&& i < MAX_CONSTANTS
                    &&& final(self).values_m() == old(self).values_m().push(val@)
                    &&& final(self).code_m() == old(self).code_m() + const_encoding(i as int)
                    &&& final(self).lines_m() == lines_after(
                        old(self).lines_m(),
                        old(self).code_m().len() as usize,
                        line,
                        const_encoding(i as int).len(),
                    )
                },
                None => {
                    &&& old(self).values_m().len() >= MAX_CONSTANTS
                    &&& *final(self) == *old(self)
                },
            },
    {
        let i = self.values.len();
        if i >= MAX_CONSTANTS {
            return None;
        }
        let ghost c0 = self.code_m();
        let ghost l0 = self.lines_m();
        let cl0 = self.code.len();
        self.values.push(val);
        proof {
            assert(self.values_m() =~= old(self).values_m().push(val@));
        }
        if i < 256 {
            self.add_op(Op::Const1, line);
            let ghost l1 = self.lines_m();
            self.add_byte(i as u8, line);
            proof {
                assert(self.code_m() =~= c0 + const_encoding(i as int));
                assert(lines_after(l0, cl0, line, 2) == lines_after(
                    line_push(l0, cl0, line),
                    (cl0 + 1) as usize,
                    line,
                    1,
                ));
                lemma_lines_after_one(line_push(l0, cl0, line), (cl0 + 1) as usize, line);
                assert(self.lines_m() == lines_after(l0, cl0, line, 2));
            }
        } else if i < 65536 {
            self.add_op(Op::Const2, line);
            self.add_byte((i / 256) as u8, line);
            self.add_byte((i % 256) as u8, line);
            proof {
                assert(self.code_m() =~= c0 + const_encoding(i as int));
                assert(lines_after(l0, cl0, line, 3) == lines_after(
                    line_push(l0, cl0, line),
                    (cl0 + 1) as usize,
                    line,
                    2,
                ));
                assert(lines_after(line_push(l0, cl0, line), (cl0 + 1) as usize, line, 2)
                    == lines_after(
                    line_push(line_push(l0, cl0, line), (cl0 + 1) as usize, line),
                    (cl0 + 2) as usize,
                    line,
                    1,
                ));
                lemma_lines_after_one(
                    line_push(line_push(l0, cl0, line), (cl0 + 1) as usize, line),
                    (cl0 + 2) as usize,
                    line,
                );
                assert(self.lines_m() == lines_after(l0, cl0, line, 3));
            }
        } else {
            self.add_op(Op::Const3, line);
            self.add_byte((i / 65536) as u8, line);
            self.add_byte(((i / 256) % 256) as u8, line);
            self.add_byte((i % 256) as u8, line);
            proof {
                assert(self.code_m() =~= c0 + const_encoding(i as int));
                let lp1 = line_push(l0, cl0, line);
                let lp2 = line_push(lp1, (cl0 + 1) as usize, line);
                let lp3 = line_push(lp2, (cl0 + 2) as usize, line);
                assert(lines_after(l0, cl0, line, 4) == lines_after(
                    lp1,
                    (cl0 + 1) as usize,
                    line,
                    3,
                ));
                assert(lines_after(lp1, (cl0 + 1) as usize, line, 3) == lines_after(
                    lp2,
                    (cl0 + 2) as usize,
                    line,
                    2,
                ));
                assert(lines_after(lp2, (cl0 + 2) as usize, line, 2) == lines_after(
                    lp3,
                    (cl0 + 3) as usize,
                    line,
                    1,
                ));
                lemma_lines_after_one(lp3, (cl0 + 3) as usize, line);
                assert(self.lines_m() == lines_after(l0, cl0, line, 4));
            }
        }
        Some(i)
    }

    /// Decodes the constant-load instruction at `i` and hands back a copy of
    /// the pooled value it names; `None` when no well-formed constant-load
    /// instruction with a valid pool index sits at `i`.
    pub fn read_constant(&self, i: usize) -> (r: Option<Value>)
        ensures
            match r {
                Some(v) => {
                    &&& decoded_const(self.code_m(), i as int) is Some
                    &&& {
                        let idx = decoded_const(self.code_m(), i as int)->Some_0.0;
                        &&& 0 <= idx < self.values_m().len()
                        &&& v@ == self.values_m()[idx]
                    }
                },
                None => match decoded_const(self.code_m(), i as int) {
                    Some(d) => d.0 >= self.values_m().len(),
                    None => true,
                },
            },
    {
        if i >= self.code.len() {
            return None;
        }
        let b = self.code[i];
        let idx: usize;
        if b == 16 {
            if self.code.len() - i < 2 {
                return None;
            }
            idx = self.code[i + 1] as usize;
        } else if b == 17 {
            if self.code.len() - i < 3 {
                return None;
            }
            idx = (self.code[i + 1] as usize) * 256 + (self.code[i + 2] as usize);
        } else if b == 18 {
            if self.code.len() - i < 4 {
                return None;
            }
            idx = (self.code[i + 1] as usize) * 65536 + (self.code[i + 2] as usize) * 256 + (
            self.code[i + 3] as usize);
        } else {
            return None;
        }
        if idx < self.values.len() {
            Some(self.values[idx].clone())
        } else {
            None
        }
    }

    /// Overwrites one previously emitted byte in place: the mechanism that
    /// backpatches forward jump offsets.
    pub fn replace_instruction(&mut self, i: usize, b: u8)
        requires
            old(self).wf(),
            i < old(self).code_m().len(),
        ensures
            final(self).wf(),
            final(self).code_m() == old(self).code_m().update(i as int, b),
            final(self).values_m() == old(self).values_m(),
            final(self).lines_m() == old(self).lines_m(),
    {
        self.code.set(i, b);
    }

    /// The source line of the instruction at offset `i`: the position of the
    /// first line-table threshold beyond `i`, or the table length if none.
    pub fn get_line(&self, i: usize) -> (r: usize)
        ensures
            r <= self.lines_m().len(),
            forall|k: int| 0 <= k < r ==> self.lines_m()[k] <= i,
            r < self.lines_m().len() ==> self.lines_m()[r as int] > i,
    {
        let mut index: usize = 0;
        while index < self.lines.len()
            invariant
                index <= self.lines_m().len(),
                forall|k: int| 0 <= k < index ==> self.lines_m()[k] <= i,
            decreases self.lines_m().len() - index,
        {
            if self.lines[index] > i {
                return index;
            }
            index = index + 1;
        }
        index
    }

    /// The instruction byte at offset `i`.
    pub fn byte_at(&self, i: usize) -> (r: u8)
        requires
            i < self.code_m().len(),
        ensures
            r == self.code_m()[i as int],
    {
        self.code[i]
    }

    /// How many instruction bytes have been emitted.
    pub fn get_count(&self) -> (r: usize)
        ensures
            r == self.code_m().len(),
    {
        self.code.len()
    }
}

/// A fresh, empty chunk.
pub fn new() -> (r: Chunk)
    ensures
        r.wf(),
        r.code_m() == Seq::<u8>::empty(),
        r.lines_m() == Seq::<usize>::empty(),
        r.values_m() == Seq::<ValueV>::empty(),
{
    let r = Chunk { code: Vec::new(), values: Vec::new(), lines: Vec::new() };
    proof {
        assert(r.values_m() =~= Seq::<ValueV>::empty());
    }
    r
}

} // verus!
