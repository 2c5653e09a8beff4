use vstd::prelude::*;
use vstd::string::StringExecFns;

verus! {

/// The flat machine instructions executed by the virtual machine.
///
/// `Push` carries a signed 64-bit constant; every other opcode takes its
/// operands from the operand stack.
#[derive(Clone, Copy, Debug, PartialEq, Eq, Structural)]
pub enum Instruction {
    Push(i64),
    /// Pops an address off the stack, then pushes the value stored there.
    Load,
    /// Pops an address, then pops a value and stores it at that address.
    Store,
    /// Discards the top of the stack.
    Pop,
    /// Pops a target index and continues execution there.
    Goto,
    /// Pops a target index, then a sentinel; jumps only when the sentinel is zero.
    GotoIfEqual,
    /// Pushes a second copy of the value at the top of the stack.
    RePush,
    /// Discards the entire operand stack.
    ClearStack,
    NoOp,
    Add,
    Sub,
    Mul,
    Div,
}

/// Which stage of the pipeline rejected the program, and why.
#[derive(Clone, Copy, Debug, PartialEq, Eq, Structural)]
pub enum ErrorKind {
    /// A source line did not match any statement form.
    SyntaxError,
    /// A jump or call names a label that no statement defines.
    UnresolvedLabel,
    /// A named load or store uses a variable that was never assigned.
    UndefinedVariable,
    /// Execution faulted: stack underflow, bad address, division by zero,
    /// or termination with an empty stack.
    RuntimeFault,
}

/// An error from parsing, assembly or execution.
///
/// `details` names the offending line, label, variable or instruction index.
#[derive(Debug)]
pub struct ExecError {
    pub kind: ErrorKind,
    pub details: String,
}

impl ExecError {
    pub fn new(kind: ErrorKind, details: &str) -> (e: Self)
        ensures
            e.kind == kind,
            e.details@ == details@,
    {
        ExecError { kind, details: String::from_str(details) }
    }
}

/// The decimal digit character for a value below ten.
pub open spec fn dec_digit(d: int) -> char {
    if d == 0 {
        '0'
    } else if d == 1 {
        '1'
    } else if d == 2 {
        '2'
    } else if d == 3 {
        '3'
    } else if d == 4 {
        '4'
    } else if d == 5 {
        '5'
    } else if d == 6 {
        '6'
    } else if d == 7 {
        '7'
    } else if d == 8 {
        '8'
    } else {
        '9'
    }
}

/// The decimal rendering of a natural number, most significant digit first.
pub open spec fn dec_str(n: nat) -> Seq<char>
    decreases n,
{
    if n < 10 {
        seq![dec_digit(n as int)]
    } else {
        dec_str(n / 10).push(dec_digit((n % 10) as int))
    }
}

fn digit_str(d: usize) -> (s: &'static str)
    requires
        d < 10,
    ensures
        s@ == seq![dec_digit(d as int)],
{
    let s: &'static str = if d == 0 {
        "0"
    } else if d == 1 {
        "1"
    } else if d == 2 {
        "2"
    } else if d == 3 {
        "3"
    } else if d == 4 {
        "4"
    } else if d == 5 {
        "5"
    } else if d == 6 {
        "6"
    } else if d == 7 {
        "7"
    } else if d == 8 {
        "8"
    } else {
        "9"
    };
    proof {
        reveal_strlit("0");
        reveal_strlit("1");
        reveal_strlit("2");
        reveal_strlit("3");
        reveal_strlit("4");
        reveal_strlit("5");
        reveal_strlit("6");
        reveal_strlit("7");
        reveal_strlit("8");
        reveal_strlit("9");
        assert(s@ =~= seq![dec_digit(d as int)]);
    }
    s
}

/// Renders an index in decimal, for error messages.
pub fn usize_to_string(n: usize) -> (s: String)
    ensures
        s@ == dec_str(n as nat),
    decreases n,
{
    if n < 10 {
        String::from_str(digit_str(n))
    } else {
        let mut s = usize_to_string(n / 10);
        s.append(digit_str(n % 10));
        proof {
            assert(s@ =~= dec_str(n as nat));
        }
        s
    }
}

} // verus!
