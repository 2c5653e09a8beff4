//! A small stack-based language: source text is parsed into statements,
//! lowered into a flat instruction array with resolved jump, call and
//! variable addresses, and executed by a stack virtual machine that
//! produces one integer result.

pub mod codegen;
pub mod interpreter;
pub mod parser;
pub mod types;

use vstd::prelude::*;

verus! {

use crate::codegen::{assemble_spec, labels_ok, stmt_ref_label, vars_of_prefix, vars_ok, CodeGen};
use crate::interpreter::{vm_run, Interpreter, VmOutcome, VmState};
use crate::parser::{
    first_bad_line, lemma_raw_lines_count, parse_ok, parsed_stmts, StmtV, VarExprV,
};
use crate::types::{ErrorKind, ExecError};

/// The machine state every run starts from: an empty stack, no variable
/// memory, the program counter at zero.
pub open spec fn initial_vm() -> VmState {
    VmState { stack: Seq::empty(), vars: Seq::empty(), pc: 0 }
}

/// Parses, assembles and runs a source text.
///
/// Each stage's error comes back under its own kind: a malformed line as
/// `SyntaxError`, an access to a never-assigned variable as
/// `UndefinedVariable`, an undefined jump or call target as
/// `UnresolvedLabel`, and an execution fault as `RuntimeFault`.  On
/// success the result is exactly what the step semantics of the assembled
/// program produces.
pub fn run_source(source: &str) -> (r: Result<i64, ExecError>)
    requires
        4 * (source@.len() + 1) + 4 <= i64::MAX,
    ensures
        ({
            let prog = parsed_stmts(source@);
            let code = assemble_spec(prog, prog.len() as int);
            match r {
                Ok(v) => {
                    &&& parse_ok(source@)
                    &&& vars_ok(prog)
                    &&& labels_ok(prog)
                    &&& exists|k: nat| vm_run(initial_vm(), code, k) == Some(VmOutcome::Done(v))
                },
                Err(e) => match e.kind {
                    ErrorKind::SyntaxError => !parse_ok(source@) && exists|k: int|
                        first_bad_line(source@, k, e.details@),
                    ErrorKind::UndefinedVariable => {
                        &&& parse_ok(source@)
                        &&& !vars_ok(prog)
                        &&& exists|i: int|
                            0 <= i < prog.len() && match #[trigger] prog[i] {
                                StmtV::VarExpr(VarExprV::Access(acc)) => acc.name == Some(
                                    e.details@,
                                ) && !vars_of_prefix(prog, i).contains_key(e.details@),
                                _ => false,
                            }
                    },
                    ErrorKind::UnresolvedLabel => {
                        &&& parse_ok(source@)
                        &&& vars_ok(prog)
                        &&& !labels_ok(prog)
                        &&& exists|i: int|
                            0 <= i < prog.len() && stmt_ref_label(#[trigger] prog[i]) == Some(
                                e.details@,
                            ) && !crate::codegen::labels_of(prog).contains_key(e.details@)
                    },
                    ErrorKind::RuntimeFault => {
                        &&& parse_ok(source@)
                        &&& vars_ok(prog)
                        &&& labels_ok(prog)
                        &&& ((exists|k: nat| vm_run(initial_vm(), code, k) == Some(
                            VmOutcome::Fault,
                        )) || vm_run(initial_vm(), code, u64::MAX as nat) is None)
                    },
                },
            }
        }),
{
    let parsed = match crate::parser::code(source) {
        Ok(c) => c,
        Err(e) => {
            return Err(e);
        },
    };
    proof {
        lemma_raw_lines_count(source@);
    }
    let mut gen = CodeGen::new();
    let lowered = match gen.lower_IR(&parsed) {
        Ok(v) => v,
        Err(e) => {
            return Err(e);
        },
    };
    let mut vm = Interpreter::new();
    proof {
        assert(vm@.stack =~= initial_vm().stack);
        assert(vm@.vars =~= initial_vm().vars);
        assert(vm@ == initial_vm());
    }
    vm.run(lowered)
}

} // verus!
