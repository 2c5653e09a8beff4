//! The stack virtual machine.
//!
//! Execution is specified by a small-step relation `vm_step` over
//! mathematical machine states and a fuelled runner `vm_run`; the executable
//! loop is proved to return exactly the outcome that some number of
//! specification steps produces.

use crate::types::{ErrorKind, ExecError, Instruction};
use vstd::prelude::*;
use vstd::string::StringExecFns;

verus! {

/// The mathematical state of the machine.
pub ghost struct VmState {
    pub stack: Seq<i64>,
    pub vars: Seq<i64>,
    pub pc: int,
}

/// What one instruction does to the state.
pub ghost enum StepResult {
    Next(VmState),
    Fault,
}

/// What a finished execution produced.
pub ghost enum VmOutcome {
    Done(i64),
    Fault,
}

/// Memory after storing `v` at address `a`: an in-range store updates in
/// place; a store past the end grows the memory to `a + 10` slots, the new
/// slots zero-filled.
pub open spec fn mem_write(m: Seq<i64>, a: int, v: i64) -> Seq<i64>
    recommends
        a >= 0,
{
    if a < m.len() {
        m.update(a, v)
    } else {
        (m + Seq::new((a + 10 - m.len()) as nat, |j: int| 0i64)).update(a, v)
    }
}

/// Where a jump with popped target `t` continues: on `t` itself when `t`
/// addresses an instruction, else past the end, which ends execution.
pub open spec fn jump_target(t: i64, len: int) -> int {
    if 0 <= t < len {
        t as int
    } else {
        len
    }
}

/// One fetch-execute step of the machine standing at `s.pc`.
///
/// Binary operators pop their left operand first: `Sub` computes
/// `top - next`, `Div` computes `top / next` (truncating) and faults on a
/// zero divisor or on the one overflowing quotient.  `Add`, `Sub` and `Mul`
/// wrap around on overflow.
pub open spec fn vm_step(s: VmState, ins: Seq<Instruction>) -> StepResult
    recommends
        0 <= s.pc < ins.len(),
{
    let nextpc = s.pc + 1;
    match ins[s.pc] {
        Instruction::Push(v) => StepResult::Next(
            VmState { stack: s.stack.push(v), pc: nextpc, ..s },
        ),
        Instruction::Load => {
            if s.stack.len() < 1 {
                StepResult::Fault
            } else {
                let a = s.stack.last();
                if 0 <= a < s.vars.len() {
                    StepResult::Next(
                        VmState {
                            stack: s.stack.drop_last().push(s.vars[a as int]),
                            pc: nextpc,
                            ..s
                        },
                    )
                } else {
                    StepResult::Fault
                }
            }
        },
        Instruction::Store => {
            if s.stack.len() < 2 {
                StepResult::Fault
            } else {
                let a = s.stack.last();
                let v = s.stack.drop_last().last();
                if a < 0 {
                    StepResult::Fault
                } else {
                    StepResult::Next(
                        VmState {
                            stack: s.stack.drop_last().drop_last(),
                            vars: mem_write(s.vars, a as int, v),
                            pc: nextpc,
                        },
                    )
                }
            }
        },
        Instruction::Pop => {
            if s.stack.len() < 1 {
                StepResult::Fault
            } else {
                StepResult::Next(VmState { stack: s.stack.drop_last(), pc: nextpc, ..s })
            }
        },
        Instruction::Goto => {
            if s.stack.len() < 1 {
                StepResult::Fault
            } else {
                StepResult::Next(
                    VmState {
                        stack: s.stack.drop_last(),
                        pc: jump_target(s.stack.last(), ins.len() as int),
                        ..s
                    },
                )
            }
        },
        Instruction::GotoIfEqual => {
            if s.stack.len() < 2 {
                StepResult::Fault
            } else {
                let t = s.stack.last();
                let sentinel = s.stack.drop_last().last();
                StepResult::Next(
                    VmState {
                        stack: s.stack.drop_last().drop_last(),
                        pc: if sentinel == 0 {
                            jump_target(t, ins.len() as int)
                        } else {
                            nextpc
                        },
                        ..s
                    },
                )
            }
        },
        Instruction::RePush => {
            if s.stack.len() < 1 {
                StepResult::Fault
            } else {
                StepResult::Next(VmState { stack: s.stack.push(s.stack.last()), pc: nextpc, ..s })
            }
        },
        Instruction::ClearStack => StepResult::Next(
            VmState { stack: Seq::empty(), pc: nextpc, ..s },
        ),
        Instruction::NoOp => StepResult::Next(VmState { pc: nextpc, ..s }),
        Instruction::Add => {
            if s.stack.len() < 2 {
                StepResult::Fault
            } else {
                let t = s.stack.last();
                let u = s.stack.drop_last().last();
                StepResult::Next(
                    VmState {
                        stack: s.stack.drop_last().drop_last().push(
                            vstd::wrapping::i64_specs::wrapping_add(t, u),
                        ),
                        pc: nextpc,
                        ..s
                    },
                )
            }
        },
        Instruction::Sub => {
            if s.stack.len() < 2 {
                StepResult::Fault
            } else {
                let t = s.stack.last();
                let u = s.stack.drop_last().last();
                StepResult::Next(
                    VmState {
                        stack: s.stack.drop_last().drop_last().push(
                            vstd::wrapping::i64_specs::wrapping_sub(t, u),
                        ),
                        pc: nextpc,
                        ..s
                    },
                )
            }
        },
        Instruction::Mul => {
            if s.stack.len() < 2 {
                StepResult::Fault
            } else {
                let t = s.stack.last();
                let u = s.stack.drop_last().last();
                StepResult::Next(
                    VmState {
                        stack: s.stack.drop_last().drop_last().push(
                            vstd::wrapping::i64_specs::wrapping_mul(t, u),
                        ),
                        pc: nextpc,
                        ..s
                    },
                )
            }
        },
        Instruction::Div => {
            if s.stack.len() < 2 {
                StepResult::Fault
            } else {
                let t = s.stack.last();
                let u = s.stack.drop_last().last();
                match t.checked_div(u) {
                    Some(q) => StepResult::Next(
                        VmState {
                            stack: s.stack.drop_last().drop_last().push(q),
                            pc: nextpc,
                            ..s
                        },
                    ),
                    None => StepResult::Fault,
                }
            }
        },
    }
}

/// Execution stops once the program counter leaves the instruction array.
pub open spec fn vm_terminal(s: VmState, len: int) -> bool {
    !(0 <= s.pc < len)
}

/// A finished run pops its result; an empty stack is a fault.
pub open spec fn vm_final(s: VmState) -> VmOutcome {
    if s.stack.len() >= 1 {
        VmOutcome::Done(s.stack.last())
    } else {
        VmOutcome::Fault
    }
}

/// The outcome after at most `fuel` steps, or `None` when the machine is
/// still running.
pub open spec fn vm_run(s: VmState, ins: Seq<Instruction>, fuel: nat) -> Option<VmOutcome>
    decreases fuel,
{
    if vm_terminal(s, ins.len() as int) {
        Some(vm_final(s))
    } else if fuel == 0 {
        None
    } else {
        match vm_step(s, ins) {
            StepResult::Fault => Some(VmOutcome::Fault),
            StepResult::Next(s2) => vm_run(s2, ins, (fuel - 1) as nat),
        }
    }
}

/// The message of a stack-underflow fault at instruction `pc`.
pub open spec fn empty_stack_msg(pc: int) -> Seq<char> {
    "stack empty at line: "@ + crate::types::dec_str(pc as nat)
}

/// The operand stack, the variable memory and the program counter of a run.
pub struct Interpreter {
    pub stack: Vec<i64>,
    pub vars: Vec<i64>,
    pub curr_instruction_idx: usize,
}

impl View for Interpreter {
    type V = VmState;

    open spec fn view(&self) -> VmState {
        VmState { stack: self.stack@, vars: self.vars@, pc: self.curr_instruction_idx as int }
    }
}

impl Interpreter {
    /// Pops the top of the operand stack, faulting when it is empty.
    pub fn pop(&mut self) -> (r: Result<i64, ExecError>)
        ensures
            match r {
                Ok(v) => {
                    &&& old(self)@.stack.len() >= 1
                    &&& v == old(self)@.stack.last()
                    &&& final(self)@.stack == old(self)@.stack.drop_last()
                    &&& final(self)@.vars == old(self)@.vars
                    &&& final(self)@.pc == old(self)@.pc
                },
                Err(e) => {
                    &&& old(self)@.stack.len() == 0
                    &&& final(self)@ == old(self)@
                    &&& e.kind == ErrorKind::RuntimeFault
                    &&& e.details@ == empty_stack_msg(old(self)@.pc)
                },
            },
    {
        match self.stack.pop() {
            Some(num) => Ok(num),
            None => Err(self.empty_stack_err()),
        }
    }

    /// The fault reported when an instruction needs a value the stack
    /// does not hold.
    pub fn empty_stack_err(&self) -> (e: ExecError)
        ensures
            e.kind == ErrorKind::RuntimeFault,
            e.details@ == empty_stack_msg(self@.pc),
    {
        let mut msg = String::from_str("stack empty at line: ");
        let num = crate::types::usize_to_string(self.curr_instruction_idx);
        msg.append(num.as_str());
        ExecError { kind: ErrorKind::RuntimeFault, details: msg }
    }

    /// Reads variable memory, faulting on an address outside it.
    pub fn get_val(&self, source: &i64) -> (r: Result<i64, ExecError>)
        ensures
            match r {
                Ok(v) => 0 <= *source < self@.vars.len() && v == self@.vars[*source as int],
                Err(e) => !(0 <= *source < self@.vars.len()) && e.kind == ErrorKind::RuntimeFault,
            },
    {
        let s = *source;
        if s >= 0 && (s as u64) < (self.vars.len() as u64) {
            Ok(self.vars[s as usize])
        } else {
            Err(ExecError::new(ErrorKind::RuntimeFault, "memory address out of range"))
        }
    }

    /// Writes variable memory, growing it zero-filled when the address lies
    /// past the end; a negative address is a fault.
    pub fn set_val(&mut self, dest: i64, val: i64) -> (r: Result<(), ExecError>)
        ensures
            match r {
                Ok(_) => {
                    &&& dest >= 0
                    &&& final(self)@.vars == mem_write(old(self)@.vars, dest as int, val)
                    &&& final(self)@.stack == old(self)@.stack
                    &&& final(self)@.pc == old(self)@.pc
                },
                Err(e) => {
                    &&& dest < 0
                    &&& final(self)@ == old(self)@
                    &&& e.kind == ErrorKind::RuntimeFault
                },
            },
    {
        if dest < 0 {
            return Err(ExecError::new(ErrorKind::RuntimeFault, "negative memory address"));
        }
        if (self.vars.len() as u64) <= (dest as u64) {
            while (self.vars.len() as u64) < (dest as u64) + 10
                invariant
                    dest >= 0,
                    old(self).vars@.len() <= self.vars@.len() <= dest + 10,
                    self.vars@ =~= old(self).vars@ + Seq::new(
                        (self.vars@.len() - old(self).vars@.len()) as nat,
                        |j: int| 0i64,
                    ),
                    self.stack@ == old(self).stack@,
                    self.curr_instruction_idx == old(self).curr_instruction_idx,
                decreases dest + 10 - self.vars@.len(),
            {
                self.vars.push(0i64);
                proof {
                    assert(self.vars@ =~= old(self).vars@ + Seq::new(
                        (self.vars@.len() - old(self).vars@.len()) as nat,
                        |j: int| 0i64,
                    ));
                }
            }
        }
        let d = dest as usize;
        self.vars[d] = val;
        proof {
            assert(self.vars@ =~= mem_write(old(self).vars@, dest as int, val));
        }
        Ok(())
    }

    /// Reads the top of the operand stack without removing it.
    pub fn last(&self) -> (r: Result<i64, ExecError>)
        ensures
            match r {
                Ok(v) => self@.stack.len() >= 1 && v == self@.stack.last(),
                Err(e) => {
                    &&& self@.stack.len() == 0
                    &&& e.kind == ErrorKind::RuntimeFault
                    &&& e.details@ == empty_stack_msg(self@.pc)
                },
            },
    {
        if self.stack.len() > 0 {
            Ok(self.stack[self.stack.len() - 1])
        } else {
            Err(self.empty_stack_err())
        }
    }

    /// A machine with an empty stack, no memory and the counter at zero.
    pub fn new() -> (r: Self)
        ensures
            r@.stack.len() == 0,
            r@.vars.len() == 0,
            r@.pc == 0,
    {
        Interpreter { stack: Vec::new(), vars: Vec::new(), curr_instruction_idx: 0 }
    }

    /// Executes the single instruction at the current program counter,
    /// exactly as `vm_step` describes it.
    #[verifier::rlimit(100)]
    fn step(&mut self, instructions: &Vec<Instruction>) -> (r: Result<(), ExecError>)
        requires
            0 <= old(self)@.pc < instructions@.len(),
        ensures
            match r {
                Ok(_) => vm_step(old(self)@, instructions@) == StepResult::Next(final(self)@),
                Err(e) => vm_step(old(self)@, instructions@) == StepResult::Fault && e.kind
                    == ErrorKind::RuntimeFault,
            },
    {
        let n = instructions.len();
        let ghost s0: VmState = self@;
        {
            let pc = self.curr_instruction_idx;
            let ins = instructions[pc];
            match ins {
                Instruction::Push(val) => {
                    self.stack.push(val);
                    self.curr_instruction_idx = pc + 1;
                    proof {
                        assert(vm_step(s0, instructions@) == StepResult::Next(self@));
                    }
                },
                Instruction::Load => {
                    let source = match self.pop() {
                        Ok(v) => v,
                        Err(e) => {
                            return Err(e);
                        },
                    };
                    let val = match self.get_val(&source) {
                        Ok(v) => v,
                        Err(e) => {
                            return Err(e);
                        },
                    };
                    self.stack.push(val);
                    self.curr_instruction_idx = pc + 1;
                    proof {
                        assert(vm_step(s0, instructions@) == StepResult::Next(self@));
                    }
                },
                Instruction::Store => {
                    let dest = match self.pop() {
                        Ok(v) => v,
                        Err(e) => {
                            return Err(e);
                        },
                    };
                    let val = match self.pop() {
                        Ok(v) => v,
                        Err(e) => {
                            return Err(e);
                        },
                    };
                    match self.set_val(dest, val) {
                        Ok(_) => {},
                        Err(e) => {
                            return Err(e);
                        },
                    }
                    self.curr_instruction_idx = pc + 1;
                    proof {
                        assert(vm_step(s0, instructions@) == StepResult::Next(self@));
                    }
                },
                Instruction::Pop => {
                    match self.pop() {
                        Ok(_) => {},
                        Err(e) => {
                            return Err(e);
                        },
                    }
                    self.curr_instruction_idx = pc + 1;
                    proof {
                        assert(vm_step(s0, instructions@) == StepResult::Next(self@));
                    }
                },
                Instruction::Goto => {
                    let t = match self.pop() {
                        Ok(v) => v,
                        Err(e) => {
                            return Err(e);
                        },
                    };
                    if t >= 0 && (t as u64) < (n as u64) {
                        self.curr_instruction_idx = t as usize;
                    } else {
                        self.curr_instruction_idx = n;
                    }
                    proof {
                        assert(vm_step(s0, instructions@) == StepResult::Next(self@));
                    }
                },
                Instruction::GotoIfEqual => {
                    let t = match self.pop() {
                        Ok(v) => v,
                        Err(e) => {
                            return Err(e);
                        },
                    };
                    let sentinel = match self.pop() {
                        Ok(v) => v,
                        Err(e) => {
                            return Err(e);
                        },
                    };
                    if sentinel == 0 {
                        if t >= 0 && (t as u64) < (n as u64) {
                            self.curr_instruction_idx = t as usize;
                        } else {
                            self.curr_instruction_idx = n;
                        }
                    } else {
                        self.curr_instruction_idx = pc + 1;
                    }
                    proof {
                        assert(vm_step(s0, instructions@) == StepResult::Next(self@));
                    }
                },
                Instruction::RePush => {
                    let v = match self.last() {
                        Ok(v) => v,
                        Err(e) => {
                            return Err(e);
                        },
                    };
                    self.stack.push(v);
                    self.curr_instruction_idx = pc + 1;
                    proof {
                        assert(vm_step(s0, instructions@) == StepResult::Next(self@));
                    }
                },
                Instruction::ClearStack => {
                    self.stack.clear();
                    self.curr_instruction_idx = pc + 1;
                    proof {
                        assert(vm_step(s0, instructions@) == StepResult::Next(self@));
                    }
                },
                Instruction::NoOp => {
                    self.curr_instruction_idx = pc + 1;
                    proof {
                        assert(vm_step(s0, instructions@) == StepResult::Next(self@));
                    }
                },
                Instruction::Add => {
                    let t = match self.pop() {
                        Ok(v) => v,
                        Err(e) => {
                            return Err(e);
                        },
                    };
                    let u = match self.pop() {
                        Ok(v) => v,
                        Err(e) => {
                            return Err(e);
                        },
                    };
                    self.stack.push(t.wrapping_add(u));
                    self.curr_instruction_idx = pc + 1;
                    proof {
                        assert(vm_step(s0, instructions@) == StepResult::Next(self@));
                    }
                },
                Instruction::Sub => {
                    let t = match self.pop() {
                        Ok(v) => v,
                        Err(e) => {
                            return Err(e);
                        },
                    };
                    let u = match self.pop() {
                        Ok(v) => v,
                        Err(e) => {
                            return Err(e);
                        },
                    };
                    self.stack.push(t.wrapping_sub(u));
                    self.curr_instruction_idx = pc + 1;
                    proof {
                        assert(vm_step(s0, instructions@) == StepResult::Next(self@));
                    }
                },
                Instruction::Mul => {
                    let t = match self.pop() {
                        Ok(v) => v,
                        Err(e) => {
                            return Err(e);
                        },
                    };
                    let u = match self.pop() {
                        Ok(v) => v,
                        Err(e) => {
                            return Err(e);
                        },
                    };
                    self.stack.push(t.wrapping_mul(u));
                    self.curr_instruction_idx = pc + 1;
                    proof {
                        assert(vm_step(s0, instructions@) == StepResult::Next(self@));
                    }
                },
                Instruction::Div => {
                    let t = match self.pop() {
                        Ok(v) => v,
                        Err(e) => {
                            return Err(e);
                        },
                    };
                    let u = match self.pop() {
                        Ok(v) => v,
                        Err(e) => {
                            return Err(e);
                        },
                    };
                    match t.checked_div(u) {
                        Some(q) => {
                            self.stack.push(q);
                            self.curr_instruction_idx = pc + 1;
                            proof {
                                assert(vm_step(s0, instructions@) == StepResult::Next(self@));
                            }
                        },
                        None => {
                            let e = ExecError::new(
                                ErrorKind::RuntimeFault,
                                "division by zero or overflowing quotient",
                            );
                            return Err(e);
                        },
                    }
                },
            }
        }
        Ok(())
    }

    /// Runs the fetch-execute loop from the machine's current state until
    /// the program counter leaves the program, then pops the result.
    ///
    /// The outcome is exactly what the step semantics gives: some number of
    /// `vm_step`s from the starting state finishes with this value or
    /// fault.  The machine is left wherever execution stopped.  A run is
    /// bounded by `u64::MAX` steps; a program still going after that many
    /// steps is reported as a fault, which the last `ensures` disjunct
    /// records exactly.
    pub fn run(&mut self, instructions: Vec<Instruction>) -> (r: Result<i64, ExecError>)
        ensures
            match r {
                Ok(v) => exists|k: nat|
                    vm_run(old(self)@, instructions@, k) == Some(VmOutcome::Done(v)),
                Err(e) => e.kind == ErrorKind::RuntimeFault && ((exists|k: nat|
                    vm_run(old(self)@, instructions@, k) == Some(VmOutcome::Fault)) || vm_run(
                    old(self)@,
                    instructions@,
                    u64::MAX as nat,
                ) is None),
            },
    {
        let ghost init: VmState = self@;
        let ghost mut steps: nat = 0nat;
        let mut fuel: u64 = u64::MAX;
        while self.curr_instruction_idx < instructions.len() && fuel > 0
            invariant
                init == old(self)@,
                steps + fuel == u64::MAX,
                forall|f: nat|
                    vm_run(init, instructions@, (f + steps) as nat) == #[trigger] vm_run(
                        self@,
                        instructions@,
                        f,
                    ),
            decreases fuel,
        {
            fuel = fuel - 1;
            let ghost s0: VmState = self@;
            match self.step(&instructions) {
                Ok(_) => {
                    proof {
                        let s1 = self@;
                        assert forall|f: nat| vm_run(
                            init,
                            instructions@,
                            (f + (steps + 1)) as nat,
                        ) == #[trigger] vm_run(s1, instructions@, f) by {
                            assert(vm_run(s0, instructions@, (f + 1) as nat) == vm_run(
                                s1,
                                instructions@,
                                f,
                            ));
                            assert(vm_run(init, instructions@, ((f + 1) + steps) as nat)
                                == vm_run(s0, instructions@, (f + 1) as nat));
                        }
                        steps = steps + 1;
                    }
                },
                Err(e) => {
                    proof {
                        lemma_fault_outcome(init, s0, instructions@, steps);
                    }
                    return Err(e);
                },
            }
        }
        if fuel == 0 && self.curr_instruction_idx < instructions.len() {
            // the step budget ran out while the machine was still going
            proof {
                assert(vm_run(self@, instructions@, 0nat) is None);
                assert(vm_run(init, instructions@, (0 + steps) as nat) is None);
            }
            return Err(
                ExecError::new(ErrorKind::RuntimeFault, "execution exceeded the step budget"),
            );
        }
        let ghost s_end = self@;
        proof {
            assert(vm_run(s_end, instructions@, 0nat) == Some(vm_final(s_end)));
            assert(vm_run(init, instructions@, (0 + steps) as nat) == Some(vm_final(s_end)));
        }
        match self.pop() {
            Ok(v) => {
                proof {
                    assert(vm_run(init, instructions@, steps) == Some(VmOutcome::Done(v)));
                }
                Ok(v)
            },
            Err(e) => {
                proof {
                    assert(vm_run(init, instructions@, steps) == Some(VmOutcome::Fault));
                }
                Err(e)
            },
        }
    }
}

/// In a state about to fault, one step settles the whole run's outcome.
proof fn lemma_fault_outcome(init: VmState, s0: VmState, ins: Seq<Instruction>, steps: nat)
    requires
        0 <= s0.pc < ins.len(),
        vm_step(s0, ins) == StepResult::Fault,
        forall|f: nat| vm_run(init, ins, (f + steps) as nat) == #[trigger] vm_run(s0, ins, f),
    ensures
        vm_run(init, ins, (1 + steps) as nat) == Some(VmOutcome::Fault),
        exists|k: nat| vm_run(init, ins, k) == Some(VmOutcome::Fault),
{
    assert(vm_run(s0, ins, 1nat) == Some(VmOutcome::Fault));
    assert(vm_run(init, ins, (1 + steps) as nat) == Some(VmOutcome::Fault));
}

// ---------------------------------------------------------------------------
// Laws of the step semantics
// ---------------------------------------------------------------------------
/// A jump executed with top-of-stack `t` continues exactly at index `t`.
pub proof fn lemma_jump_bias(s: VmState, ins: Seq<Instruction>)
    requires
        0 <= s.pc < ins.len(),
        ins[s.pc] == Instruction::Goto,
        s.stack.len() >= 1,
        0 <= s.stack.last() < ins.len(),
    ensures
        vm_step(s, ins) matches StepResult::Next(s2) && s2.pc == s.stack.last(),
{
}

/// Binary operators take the top of the stack as their left operand:
/// `Sub` computes top minus next, `Div` divides the top by the next value.
pub proof fn lemma_operand_order(s: VmState, ins: Seq<Instruction>, t: i64, u: i64)
    requires
        0 <= s.pc < ins.len(),
        s.stack.len() >= 2,
        t == s.stack.last(),
        u == s.stack.drop_last().last(),
    ensures
        ins[s.pc] == Instruction::Sub ==> (vm_step(s, ins) matches StepResult::Next(s2)
            && s2.stack.last() == vstd::wrapping::i64_specs::wrapping_sub(t, u)),
        ins[s.pc] == Instruction::Div && t.checked_div(u) is Some ==> (vm_step(s, ins)
            matches StepResult::Next(s2) && s2.stack.last() == t.checked_div(u)->0),
{
    if ins[s.pc] == Instruction::Sub {
        assert(vm_step(s, ins) matches StepResult::Next(s2) && s2.stack.last()
            == vstd::wrapping::i64_specs::wrapping_sub(t, u));
    }
}

/// Reading an address right after writing it yields the written value.
pub proof fn lemma_store_load_round_trip(m: Seq<i64>, a: int, v: i64)
    requires
        a >= 0,
    ensures
        mem_write(m, a, v).len() > a,
        mem_write(m, a, v)[a] == v,
{
}

/// Storing past the end grows the memory and zero-fills every new slot
/// other than the one written.
pub proof fn lemma_store_growth(m: Seq<i64>, a: int, v: i64)
    requires
        m.len() <= a,
    ensures
        mem_write(m, a, v).len() == a + 10,
        forall|i: int| 0 <= i < m.len() ==> mem_write(m, a, v)[i] == m[i],
        forall|i: int| m.len() <= i < a + 10 && i != a ==> mem_write(m, a, v)[i] == 0i64,
{
}

} // verus!
