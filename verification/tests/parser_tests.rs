use spyder::parser::{
    assignment, call, code, goto, labled_ins, load_store, number, plain_statement, push,
    statement, Assignment, Code, LabeledStatement, LoadOrStore, Statement, VarAccess,
    VariableExpr,
};
use spyder::types::{ErrorKind, Instruction};

#[test]
fn test_code() {
    let res = code("// comment here\r\ngoto END\r\n!![END] rePush");
    assert_eq!(
        res.unwrap(),
        Code {
            lines: vec![
                Statement::Comment(" comment here".to_string()),
                Statement::Goto("END".to_string()),
                Statement::LabeledStatement(LabeledStatement {
                    label: "END".to_string(),
                    ins: Instruction::RePush,
                }),
            ],
        }
    )
}

#[test]
fn test_statement() {
    let res = statement("!![END] mul");
    assert_eq!(
        res.unwrap(),
        Statement::LabeledStatement(LabeledStatement {
            label: "END".to_string(),
            ins: Instruction::Mul,
        })
    )
}

#[test]
fn test_labled_ins() {
    let res = labled_ins("!![END] mul");
    assert_eq!(
        res.unwrap(),
        Statement::LabeledStatement(LabeledStatement {
            label: "END".to_string(),
            ins: Instruction::Mul,
        })
    )
}

#[test]
fn test_goto() {
    let mut res = goto("goto END");
    assert_eq!(res.unwrap(), Statement::Goto("END".to_string()));
    res = goto("gotoEqual TopOfLoop");
    assert_eq!(res.unwrap(), Statement::GotoEqual("TopOfLoop".to_string()));
}

#[test]
fn test_push() {
    let res = push("push -50");
    assert_eq!(res.unwrap(), Statement::Ins(Instruction::Push(-50)))
}

#[test]
fn test_call() {
    let res = call("call PerformCalc2");
    assert_eq!(res.unwrap(), Statement::Call("PerformCalc2".to_string()));
}

#[test]
fn test_var_assignment() {
    let res = assignment("var foo = 5");
    assert_eq!(
        res.unwrap(),
        VariableExpr::Assignment(Assignment { name: "foo".to_string(), value: 5 })
    );
}

#[test]
fn test_load() {
    let mut res = load_store("load foo");
    assert_eq!(
        res.unwrap(),
        VariableExpr::Access(VarAccess {
            load_or_store: LoadOrStore::Load,
            name: Some("foo".to_string()),
        })
    );
    res = load_store("load");
    assert_eq!(
        res.unwrap(),
        VariableExpr::Access(VarAccess { load_or_store: LoadOrStore::Load, name: None })
    );
}

#[test]
fn test_store() {
    let mut res = load_store("store foo");
    assert_eq!(
        res.unwrap(),
        VariableExpr::Access(VarAccess {
            load_or_store: LoadOrStore::Store,
            name: Some("foo".to_string()),
        })
    );
    res = load_store("store");
    assert_eq!(
        res.unwrap(),
        VariableExpr::Access(VarAccess { load_or_store: LoadOrStore::Store, name: None })
    );
}

#[test]
fn test_number_values() {
    assert_eq!(number("50").unwrap(), 50);
    assert_eq!(number("-50").unwrap(), -50);
    assert_eq!(number("0").unwrap(), 0);
    assert_eq!(number("9223372036854775807").unwrap(), i64::MAX);
}

#[test]
fn test_number_rejects_garbage() {
    assert_eq!(number("").unwrap_err().kind, ErrorKind::SyntaxError);
    assert_eq!(number("-").unwrap_err().kind, ErrorKind::SyntaxError);
    assert_eq!(number("12x").unwrap_err().kind, ErrorKind::SyntaxError);
    // one past i64::MAX no longer fits a 64-bit constant
    assert_eq!(number("9223372036854775808").unwrap_err().kind, ErrorKind::SyntaxError);
}

#[test]
fn test_plain_statements() {
    assert_eq!(plain_statement("pop").unwrap(), Statement::Ins(Instruction::Pop));
    assert_eq!(plain_statement("rePush").unwrap(), Statement::Ins(Instruction::RePush));
    assert_eq!(plain_statement("noOp").unwrap(), Statement::Ins(Instruction::NoOp));
    // `return` is a jump through the address on the stack
    assert_eq!(plain_statement("return").unwrap(), Statement::Ins(Instruction::Goto));
    assert_eq!(plain_statement("add").unwrap(), Statement::Ins(Instruction::Add));
    assert_eq!(plain_statement("sub").unwrap(), Statement::Ins(Instruction::Sub));
    assert_eq!(plain_statement("mul").unwrap(), Statement::Ins(Instruction::Mul));
    assert_eq!(plain_statement("div").unwrap(), Statement::Ins(Instruction::Div));
    assert_eq!(plain_statement("frob").unwrap_err().kind, ErrorKind::SyntaxError);
}

#[test]
fn test_statement_rejects_bad_lines() {
    assert_eq!(statement("").unwrap_err().kind, ErrorKind::SyntaxError);
    assert_eq!(statement("jump END").unwrap_err().kind, ErrorKind::SyntaxError);
    assert_eq!(statement("push abc").unwrap_err().kind, ErrorKind::SyntaxError);
    assert_eq!(statement("goto ").unwrap_err().kind, ErrorKind::SyntaxError);
    // a label may not wrap a jump or a call
    assert_eq!(statement("!![L] goto END").unwrap_err().kind, ErrorKind::SyntaxError);
}

#[test]
fn test_code_reports_first_bad_line() {
    let err = code("push 1\nbogus line\npush 2").unwrap_err();
    assert_eq!(err.kind, ErrorKind::SyntaxError);
    assert_eq!(err.details, "bogus line");
    // an empty line where a statement is required is also malformed
    let err = code("push 1\n\npush 2").unwrap_err();
    assert_eq!(err.kind, ErrorKind::SyntaxError);
    assert_eq!(err.details, "");
    // a trailing line break leaves an empty final line
    let err = code("push 1\npush 2\n").unwrap_err();
    assert_eq!(err.kind, ErrorKind::SyntaxError);
}
