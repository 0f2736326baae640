use sexpvm::bytecode::{Op, Value};
use sexpvm::chunk;
use sexpvm::vm;
use sexpvm::vm::VMError;

#[test]
fn constant_round_trip_across_width_transition() {
    // Insert 300 distinct constants: pool indexes below 256 use the
    // one-byte form, the rest the two-byte form; reading each offset back
    // reproduces the value exactly.
    let mut c = chunk::new();
    let mut offsets: Vec<usize> = Vec::new();
    for i in 0..300isize {
        offsets.push(c.get_count());
        let idx = c.add_constant(Value::VInt(i), 1).expect("pool has room");
        assert_eq!(idx, i as usize);
    }
    for i in 0..300isize {
        let v = c.read_constant(offsets[i as usize]).expect("a constant");
        assert_eq!(Value::VInt(i), v);
    }
    // The 256th distinct constant (index 255) still fits the one-byte form;
    // index 256 is the first two-byte load, one byte longer.
    assert_eq!(2, offsets[256] - offsets[255]);
    assert_eq!(3, offsets[257] - offsets[256]);
}

#[test]
fn opcode_bytes_round_trip() {
    let ops = vec![
        Op::Negate,
        Op::Add,
        Op::Subtract,
        Op::Multiply,
        Op::Divide,
        Op::Car,
        Op::Cdr,
        Op::Cons,
        Op::Equal,
        Op::LessEqual,
        Op::GreaterEqual,
        Op::Less,
        Op::Greater,
        Op::Discard,
        Op::Discard1,
        Op::Return,
        Op::Const1,
        Op::Const2,
        Op::Const3,
        Op::Load,
        Op::Store,
        Op::CreateFrame,
        Op::DropFrame,
        Op::DropFrameSaveReturn,
        Op::Jump,
        Op::JumpTrue,
        Op::NoOp,
    ];
    for op in ops {
        assert_eq!(Some(op), Op::from_lit(op.to_lit()));
    }
    assert_eq!(None, Op::from_lit(255));
}

#[test]
fn line_index_counts_thresholds() {
    let mut c = chunk::new();
    c.add_op(Op::NoOp, 1);
    c.add_op(Op::NoOp, 1);
    c.add_op(Op::NoOp, 2);
    // Thresholds recorded: one when line 1 was first seen, one at line 2.
    assert_eq!(1, c.get_line(0));
    assert_eq!(1, c.get_line(1));
    assert_eq!(2, c.get_line(2));
    assert_eq!(3, c.get_count());
}

#[test]
fn malformed_stream_is_an_internal_error() {
    // A byte that encodes no instruction stops the machine at the
    // machine's fault, not the program's.
    let mut c = chunk::new();
    c.add_byte(255, 1);
    let mut v = vm::new(c);
    assert!(matches!(v.run(), Err(VMError::Internal(_))));

    // An empty stream has no instruction to fetch at all.
    let c = chunk::new();
    let mut v = vm::new(c);
    assert!(matches!(v.run(), Err(VMError::Internal(_))));
}

#[test]
fn values_report_their_kind() {
    assert_eq!("Int", Value::VInt(1).type_of());
    assert_eq!("String", Value::VString(String::new()).type_of());
    assert_eq!("Bool", Value::VBool(true).type_of());
    assert_eq!("Error", Value::VErr.type_of());
}
