use orus::compiler::compile;
use orus::vm::assembler::assemble;
use orus::vm::machine::{RuntimeFault, VM};

fn run_source(src: &str) -> (Vec<(usize, i32)>, Result<(), RuntimeFault>) {
    let text = compile(src).unwrap();
    let words = assemble(&format!("{}\nHALT", text)).unwrap();
    let mut vm = VM::new();
    vm.load_program(&words);
    let r = vm.run();
    (vm.output, r)
}

#[test]
fn declared_value_is_printed() {
    let (out, r) = run_source("mut sum = 5\nprint sum");
    assert_eq!(r, Ok(()));
    assert_eq!(out.len(), 1);
    assert_eq!(out[0].1, 5);
}

#[test]
fn parenthesised_print_of_default_program() {
    let (out, _) = run_source("mut sum = 5\nprint(sum)");
    assert_eq!(out.iter().map(|p| p.1).collect::<Vec<_>>(), vec![5]);
}

#[test]
fn exclusive_loop_sums() {
    let (out, r) = run_source("mut s = 0\nfor i in 0..4:\n    s = s + i\nprint s");
    assert_eq!(r, Ok(()));
    assert_eq!(out.iter().map(|p| p.1).collect::<Vec<_>>(), vec![6]);
}

#[test]
fn inclusive_loop_sums() {
    let (out, _) = run_source("mut s = 0\nfor i in 1..=4:\n    s = s + i\nprint s");
    assert_eq!(out.iter().map(|p| p.1).collect::<Vec<_>>(), vec![10]);
}

#[test]
fn loop_prints_each_value() {
    let (out, _) = run_source("for i in 0..3:\n    print i * 10");
    assert_eq!(out.iter().map(|p| p.1).collect::<Vec<_>>(), vec![0, 10, 20]);
}

#[test]
fn expression_precedence_at_run_time() {
    let (out, _) = run_source("mut x = 2 + 3 * 4 - 10 / 2\nprint x");
    assert_eq!(out.iter().map(|p| p.1).collect::<Vec<_>>(), vec![9]);
}

#[test]
fn division_by_zero_in_source_faults() {
    let (out, r) = run_source("mut z = 0\nmut x = 1 / z\nprint x");
    assert_eq!(r, Err(RuntimeFault::DivisionByZero));
    assert!(out.is_empty());
}
