use spyder::codegen::CodeGen;
use spyder::interpreter::Interpreter;
use spyder::parser::code;
use spyder::run_source;
use spyder::types::{ErrorKind, Instruction};

fn assemble(source: &str) -> Result<Vec<Instruction>, spyder::types::ExecError> {
    let parsed = code(source).expect("parse error");
    let mut gen = CodeGen::new();
    gen.lower_IR(&parsed)
}

#[test]
fn test_multiplication() {
    let calculated = run_source("push 3\npush 7\nmul");
    assert!(calculated.is_ok());
    assert_eq!(calculated.expect("error"), 21)
}

#[test]
fn test_calling() {
    let source = "call Calc\n!![Back] push 50\ngoto End\n!![Calc] return\n!![End] noOp";
    let calculated = run_source(source);
    assert!(calculated.is_ok());
    assert_eq!(calculated.expect("error"), 50)
}

#[test]
fn test_variables() {
    let source = "var a = 5\nvar b = 10\nload a\nload b\nadd";
    let calculated = run_source(source);
    assert!(calculated.is_ok());
    assert_eq!(calculated.expect("error"), 15)
}

#[test]
fn test_forward_reference_resolved() {
    // the placeholder of the forward `goto` holds the label's final index
    let out = assemble("goto END\n!![END] noOp").unwrap();
    assert_eq!(out, vec![Instruction::Push(2), Instruction::Goto, Instruction::NoOp]);
}

#[test]
fn test_label_redefinition_keeps_last() {
    let out = assemble("goto L\n!![L] noOp\n!![L] pop").unwrap();
    assert_eq!(
        out,
        vec![Instruction::Push(3), Instruction::Goto, Instruction::NoOp, Instruction::Pop]
    );
}

#[test]
fn test_call_expansion() {
    // a call expands to exactly four instructions and a static return address
    let out = assemble("call Fn\n!![Fn] noOp").unwrap();
    assert_eq!(
        out,
        vec![
            Instruction::ClearStack,
            Instruction::Push(4),
            Instruction::Push(4),
            Instruction::Goto,
            Instruction::NoOp,
        ]
    );
}

#[test]
fn test_unresolved_label_fails_assembly() {
    let err = assemble("goto missing\nnoOp").unwrap_err();
    assert_eq!(err.kind, ErrorKind::UnresolvedLabel);
    assert_eq!(err.details, "missing");
}

#[test]
fn test_undefined_variable_fails_assembly() {
    let err = assemble("push 1\nload y").unwrap_err();
    assert_eq!(err.kind, ErrorKind::UndefinedVariable);
    assert_eq!(err.details, "y");
}

#[test]
fn test_variable_slots_first_use_order() {
    // slots start at 1 and are assigned in first-use order
    let out = assemble("var a = 8\nvar b = 9\nvar a = 6").unwrap();
    assert_eq!(
        out,
        vec![
            Instruction::Push(8),
            Instruction::Push(1),
            Instruction::Store,
            Instruction::Push(9),
            Instruction::Push(2),
            Instruction::Store,
            Instruction::Push(6),
            Instruction::Push(1),
            Instruction::Store,
        ]
    );
}

#[test]
fn test_jump_bias() {
    // the instruction executed after a jump with target t is exactly index t
    let result = run_source("push 1\ngoto End\npush 2\n!![End] noOp");
    assert_eq!(result.unwrap(), 1);
}

#[test]
fn test_operand_order_sub() {
    // stack [10, 3] with 3 on top: sub yields 3 - 10 = -7
    assert_eq!(run_source("push 10\npush 3\nsub").unwrap(), -7);
}

#[test]
fn test_operand_order_div() {
    // stack [2, 10] with 10 on top: div yields 10 / 2 = 5
    assert_eq!(run_source("push 2\npush 10\ndiv").unwrap(), 5);
}

#[test]
fn test_variable_round_trip() {
    // an assigned variable loads back as the assigned value
    assert_eq!(run_source("var x = 5\nload x").unwrap(), 5);
    // a value stored through `store x` comes back through `load x`
    assert_eq!(run_source("push 7\nvar x = 1\nstore x\nload x").unwrap(), 7);
}

#[test]
fn test_memory_growth_zero_fills() {
    // storing at address 12 with empty memory grows it; untouched slots are zero
    let mut vm = Interpreter::new();
    let result = vm.run(vec![Instruction::Push(7), Instruction::Push(12), Instruction::Store]);
    // the program leaves nothing on the stack, so no result is produced
    assert_eq!(result.unwrap_err().kind, ErrorKind::RuntimeFault);
    assert!(vm.vars.len() >= 13);
    assert_eq!(vm.vars[12], 7);
    for i in 0..12 {
        assert_eq!(vm.vars[i], 0);
    }
}

#[test]
fn test_end_to_end_add() {
    assert_eq!(run_source("push 3\npush 4\nadd").unwrap(), 7);
}

#[test]
fn test_end_to_end_mul_variable() {
    assert_eq!(run_source("var x = 10\nload x\npush 2\nmul").unwrap(), 20);
}

#[test]
fn test_end_to_end_unresolved_label() {
    let err = run_source("goto missing\nnoOp").unwrap_err();
    assert_eq!(err.kind, ErrorKind::UnresolvedLabel);
    assert_eq!(err.details, "missing");
}

#[test]
fn test_end_to_end_pop_underflow() {
    let err = run_source("pop").unwrap_err();
    assert_eq!(err.kind, ErrorKind::RuntimeFault);
    assert_eq!(err.details, "stack empty at line: 0");
}

#[test]
fn test_goto_equal_taken_and_not() {
    // sentinel zero takes the branch
    assert_eq!(run_source("push 5\npush 0\ngotoEqual End\npop\npush 9\n!![End] noOp").unwrap(), 5);
    // a non-zero sentinel falls through
    assert_eq!(run_source("push 5\npush 1\ngotoEqual End\npop\npush 9\n!![End] noOp").unwrap(), 9);
}

#[test]
fn test_re_push_duplicates_top() {
    assert_eq!(run_source("push 6\nrePush\nadd").unwrap(), 12);
}

#[test]
fn test_division_by_zero_faults() {
    // the divisor is the value under the top of the stack
    let err = run_source("push 0\npush 5\ndiv").unwrap_err();
    assert_eq!(err.kind, ErrorKind::RuntimeFault);
}

#[test]
fn test_load_out_of_range_faults() {
    let err = run_source("push 3\nload").unwrap_err();
    assert_eq!(err.kind, ErrorKind::RuntimeFault);
}

#[test]
fn test_empty_program_run_has_no_result() {
    let mut vm = Interpreter::new();
    let err = vm.run(vec![]).unwrap_err();
    assert_eq!(err.kind, ErrorKind::RuntimeFault);
}

#[test]
fn test_decimal_rendering() {
    assert_eq!(spyder::types::usize_to_string(0), "0");
    assert_eq!(spyder::types::usize_to_string(7), "7");
    assert_eq!(spyder::types::usize_to_string(12345), "12345");
    assert_eq!(spyder::types::usize_to_string(1000), "1000");
}

#[test]
fn test_syntax_error_aborts_pipeline() {
    let err = run_source("push 1\npush abc\nadd").unwrap_err();
    assert_eq!(err.kind, ErrorKind::SyntaxError);
    assert_eq!(err.details, "push abc");
}
