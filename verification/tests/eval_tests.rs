use sexpvm::bytecode::Value;
use sexpvm::bytecode::Value::{VBool, VInt, VString};
use sexpvm::evaluator::{evaluate, CompileError};
use sexpvm::reader::read;
use sexpvm::vm;
use sexpvm::vm::VMError;

fn test_string(test: &str) -> Option<Value> {
    let ast = read(test);
    match evaluate(ast) {
        Ok(Some(chunk)) => {
            let mut v = vm::new(chunk);
            match v.run() {
                Err(_) => None,
                Ok(val) => Some(val),
            }
        }
        _ => None,
    }
}

fn compile_failure(test: &str) -> Option<CompileError> {
    match evaluate(read(test)) {
        Err(e) => Some(e),
        Ok(_) => None,
    }
}

fn run_error(test: &str) -> Option<VMError> {
    match evaluate(read(test)) {
        Ok(Some(chunk)) => match vm::new(chunk).run() {
            Err(e) => Some(e),
            Ok(_) => None,
        },
        _ => panic!("expected the program to compile"),
    }
}

#[test]
fn test_math() {
    assert_eq!(Some(VInt(4)), test_string("(- 6 2)"));
    assert_eq!(Some(VInt(3)), test_string("(+ 1 2)"));
    assert_eq!(Some(VInt(10)), test_string("(/ 30 3)"));
    assert_eq!(Some(VInt(15)), test_string("(* 3 5)"));
    assert_eq!(
        Some(VInt(49)),
        test_string("(- (+ 1 2 (* 3 4 (- 9 3 (/ 100 10 10)))) 14)")
    );
}

#[test]
fn test_strings() {
    assert_eq!(
        Some(VString(String::from("Hello World"))),
        test_string("(+ \"Hello\" \" \" \"World\")")
    );
}

#[test]
fn test_list() {
    assert_eq!(Some(VInt(1)), test_string("(car (quote (1 2 3)))"));
    assert_eq!(Some(VInt(1)), test_string("(car (cons 1 (quote ()))"));
    assert_eq!(
        Some(VInt(1)),
        test_string("(car (cons 1 (cons 2 (cons 3 (cons 4 (quote ()))))))")
    );
    assert_eq!(
        Some(VInt(2)),
        test_string("(car (cdr (cons 1 (cons 2 (cons 3 (cons 4 (quote ())))))))")
    );
    assert_eq!(
        Some(VInt(3)),
        test_string("(car (cdr (cdr (cons 1 (cons 2 (cons 3 (cons 4 (quote ()))))))))")
    );
    assert_eq!(
        Some(VString(String::from("Hello"))),
        test_string("(car (quote (\"Hello\" \"World\")))")
    );
}

#[test]
fn test_if() {
    assert_eq!(Some(VBool(true)), test_string("(if true true false)"));
    assert_eq!(Some(VBool(false)), test_string("(if false true false)"));
    assert_eq!(Some(VBool(true)), test_string("(if (< 10 20) true false)"));
    assert_eq!(
        Some(VBool(true)),
        test_string("(if (> (* 5 4) (* 4 4)) true false)")
    );
    assert_eq!(
        Some(VBool(false)),
        test_string("(if (> (* 5 4) (* 4 4)) (> 1 2) (+ 1 2))")
    );
}

#[test]
fn test_if_without_else() {
    assert_eq!(Some(VInt(5)), test_string("(if true 5)"));
}

#[test]
fn test_chained_comparison() {
    // A chain means every adjacent pair in source order, stopping at the
    // first failing pair.
    assert_eq!(Some(VBool(true)), test_string("(< 1 2 3)"));
    assert_eq!(Some(VBool(false)), test_string("(< 1 3 2)"));
    assert_eq!(Some(VBool(true)), test_string("(<= 1 1 2)"));
    assert_eq!(Some(VBool(true)), test_string("(>= 3 3 2)"));
    assert_eq!(Some(VBool(false)), test_string("(> 1 2)"));
    assert_eq!(Some(VBool(true)), test_string("(= 4 4 4)"));
    assert_eq!(Some(VBool(false)), test_string("(= 4 5)"));
    // The failing pair settles the chain before a later, unordered pair is
    // reached.
    assert_eq!(Some(VBool(false)), test_string("(< 5 3 \"a\")"));
}

#[test]
fn test_string_ordering_and_repetition() {
    assert_eq!(Some(VBool(true)), test_string("(< \"abc\" \"abd\")"));
    assert_eq!(Some(VBool(true)), test_string("(= \"a\" \"a\")"));
    assert_eq!(Some(VBool(false)), test_string("(= \"a\" \"b\")"));
    assert_eq!(
        Some(VString(String::from("ababab"))),
        test_string("(* \"ab\" 3)")
    );
}

#[test]
fn test_do_discards_intermediates() {
    // A multi-form sequence keeps only its final value: the enclosing
    // addition sees exactly one value from the inner sequence.
    assert_eq!(Some(VInt(3)), test_string("(do 1 2 3)"));
    assert_eq!(Some(VInt(12)), test_string("(+ (do 1 2) 10)"));
}

#[test]
fn test_list_truthiness_is_inverted() {
    // An empty list counts as true and a non-empty list as false: the
    // inverse of the common convention, pinned here on purpose.
    assert_eq!(Some(VInt(1)), test_string("(if (quote ()) 1 2)"));
    assert_eq!(Some(VInt(2)), test_string("(if (quote (9)) 1 2)"));
}

#[test]
fn test_negation() {
    assert_eq!(Some(VInt(-5)), test_string("(- 5)"));
}

#[test]
fn test_compile_failures() {
    assert!(matches!(
        compile_failure("(widget 1 2)"),
        Some(CompileError::UnknownOperator(_, _))
    ));
    assert!(matches!(
        compile_failure("(1 2 3)"),
        Some(CompileError::NotAFunction(_))
    ));
    assert!(matches!(
        compile_failure("(car 1 2)"),
        Some(CompileError::WrongArity(_))
    ));
    assert!(matches!(
        compile_failure("(cons 1)"),
        Some(CompileError::WrongArity(_))
    ));
    assert!(matches!(
        compile_failure("(if true)"),
        Some(CompileError::WrongArity(_))
    ));
    assert!(matches!(
        compile_failure("(-)"),
        Some(CompileError::WrongArity(_))
    ));
    assert!(matches!(
        compile_failure("(do)"),
        Some(CompileError::WrongArity(_))
    ));
    assert!(matches!(
        compile_failure("x"),
        Some(CompileError::UnresolvedIdentifier(_, _))
    ));
    assert!(matches!(
        compile_failure("(quote x)"),
        Some(CompileError::QuotedIdentifier(_))
    ));

    let mut big = String::from("(<");
    for _ in 0..256 {
        big.push_str(" 1");
    }
    big.push(')');
    assert!(matches!(
        compile_failure(&big),
        Some(CompileError::TooManyCompareOperands(_))
    ));

    // An else-branch of 70 constant loads spans more than 127 instruction
    // bytes, which the one-byte jump offset cannot encode.
    let mut long_branch = String::from("(+");
    for _ in 0..70 {
        long_branch.push_str(" 1");
    }
    long_branch.push(')');
    let program = format!("(if true 1 {})", long_branch);
    assert!(matches!(
        compile_failure(&program),
        Some(CompileError::JumpTooFar(_))
    ));
}

#[test]
fn test_runtime_errors() {
    assert!(matches!(
        run_error("(car (quote ()))"),
        Some(VMError::Runtime(_))
    ));
    assert!(matches!(run_error("(car 1)"), Some(VMError::Runtime(_))));
    assert!(matches!(run_error("(cons 1 2)"), Some(VMError::Runtime(_))));
    assert!(matches!(
        run_error("(+ 1 \"a\")"),
        Some(VMError::Runtime(_))
    ));
    assert!(matches!(
        run_error("(< true false)"),
        Some(VMError::Runtime(_))
    ));
    assert!(matches!(run_error("(/ 1 0)"), Some(VMError::Runtime(_))));
    assert!(matches!(run_error("(* \"ab\" 0)"), Some(VMError::Runtime(_))));
    assert!(matches!(run_error("(=)"), Some(VMError::Runtime(_))));
}

#[test]
fn test_pool_width_transition_through_program() {
    // A program with more than 256 distinct constants crosses from the
    // one-byte to the two-byte constant-load form; the sum checks that each
    // constant reads back as itself.
    let mut src = String::from("(+");
    let mut expected: isize = 0;
    for i in 0..300 {
        src.push_str(&format!(" {}", i));
        expected += i;
    }
    src.push(')');
    assert_eq!(Some(VInt(expected)), test_string(&src));
}

#[test]
fn test_empty_input() {
    assert!(read("").is_none());
    assert!(matches!(evaluate(None), Ok(None)));
}
