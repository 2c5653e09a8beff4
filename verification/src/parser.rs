//! The line-oriented surface grammar.
//!
//! A program is a sequence of statements, one per source line, with lines
//! separated by `\n` or `\r\n` and no separator required after the last
//! statement.  Every statement form is specified declaratively over the
//! line's character sequence by `stmt_of_line`; the executable parser is
//! proved to return exactly what that specification says.

use crate::types::{ErrorKind, ExecError, Instruction};
use vstd::prelude::*;
use vstd::std_specs::cmp::PartialEqSpec;
use vstd::string::StrSliceExecFns;
use vstd::string::StringExecFns;

verus! {

// ---------------------------------------------------------------------------
// Statement data model
// ---------------------------------------------------------------------------
/// Whether a bare or named variable access reads or writes memory.
#[derive(Clone, Copy, Debug, PartialEq, Eq, Structural)]
pub enum LoadOrStore {
    Load,
    Store,
}

impl LoadOrStore {
    /// The machine instruction a variable access lowers to.
    pub fn get_value(&self) -> (ins: Instruction)
        ensures
            ins == self.ins(),
    {
        match self {
            Self::Load => Instruction::Load,
            Self::Store => Instruction::Store,
        }
    }

    pub open spec fn ins(self) -> Instruction {
        match self {
            LoadOrStore::Load => Instruction::Load,
            LoadOrStore::Store => Instruction::Store,
        }
    }
}

/// `var <name> = <value>`: binds `name` to a memory slot and stores `value` there.
#[derive(Clone, Debug)]
pub struct Assignment {
    pub name: String,
    pub value: i64,
}

/// `load [<name>]` / `store [<name>]`.  Without a name the instruction takes
/// its address from the operand stack.
#[derive(Clone, Debug)]
pub struct VarAccess {
    pub load_or_store: LoadOrStore,
    pub name: Option<String>,
}

/// A statement that mentions a source-level variable.
#[derive(Clone, Debug)]
pub enum VariableExpr {
    Assignment(Assignment),
    Access(VarAccess),
}

/// `!![<label>] <op>`: a plain instruction bound to a named address.
/// A label may not be attached to a jump or a call.
#[derive(Clone, Debug)]
pub struct LabeledStatement {
    pub label: String,
    pub ins: Instruction,
}

/// One parsed source line.
#[derive(Clone, Debug)]
pub enum Statement {
    Ins(Instruction),
    VarExpr(VariableExpr),
    LabeledStatement(LabeledStatement),
    Goto(String),
    GotoEqual(String),
    Call(String),
    Comment(String),
}

/// A whole parsed program; statement order defines instruction addresses.
#[derive(Debug)]
pub struct Code {
    pub lines: Vec<Statement>,
}

// ---------------------------------------------------------------------------
// Mathematical views of statements
// ---------------------------------------------------------------------------
pub ghost struct AssignmentV {
    pub name: Seq<char>,
    pub value: i64,
}

pub ghost struct VarAccessV {
    pub load_or_store: LoadOrStore,
    pub name: Option<Seq<char>>,
}

pub ghost enum VarExprV {
    Assignment(AssignmentV),
    Access(VarAccessV),
}

pub ghost struct LabeledV {
    pub label: Seq<char>,
    pub ins: Instruction,
}

/// The mathematical form of a statement: labels and names as character
/// sequences.
pub ghost enum StmtV {
    Ins(Instruction),
    VarExpr(VarExprV),
    LabeledStatement(LabeledV),
    Goto(Seq<char>),
    GotoEqual(Seq<char>),
    Call(Seq<char>),
    Comment(Seq<char>),
}

impl DeepView for Assignment {
    type V = AssignmentV;

    open spec fn deep_view(&self) -> AssignmentV {
        AssignmentV { name: self.name@, value: self.value }
    }
}

impl DeepView for VarAccess {
    type V = VarAccessV;

    open spec fn deep_view(&self) -> VarAccessV {
        VarAccessV {
            load_or_store: self.load_or_store,
            name: match self.name {
                Some(ref n) => Some(n@),
                None => None,
            },
        }
    }
}

impl DeepView for VariableExpr {
    type V = VarExprV;

    open spec fn deep_view(&self) -> VarExprV {
        match self {
            VariableExpr::Assignment(a) => VarExprV::Assignment(a.deep_view()),
            VariableExpr::Access(a) => VarExprV::Access(a.deep_view()),
        }
    }
}

impl DeepView for LabeledStatement {
    type V = LabeledV;

    open spec fn deep_view(&self) -> LabeledV {
        LabeledV { label: self.label@, ins: self.ins }
    }
}

impl DeepView for Statement {
    type V = StmtV;

    open spec fn deep_view(&self) -> StmtV {
        match self {
            Statement::Ins(i) => StmtV::Ins(*i),
            Statement::VarExpr(v) => StmtV::VarExpr(v.deep_view()),
            Statement::LabeledStatement(l) => StmtV::LabeledStatement(l.deep_view()),
            Statement::Goto(l) => StmtV::Goto(l@),
            Statement::GotoEqual(l) => StmtV::GotoEqual(l@),
            Statement::Call(l) => StmtV::Call(l@),
            Statement::Comment(t) => StmtV::Comment(t@),
        }
    }
}

impl DeepView for Code {
    type V = Seq<StmtV>;

    open spec fn deep_view(&self) -> Seq<StmtV> {
        self.lines.deep_view()
    }
}

// ---------------------------------------------------------------------------
// Equality: two statements are equal when their mathematical views are
// ---------------------------------------------------------------------------
impl PartialEq for Assignment {
    fn eq(&self, other: &Assignment) -> (r: bool) {
        self.name == other.name && self.value == other.value
    }
}

impl vstd::std_specs::cmp::PartialEqSpecImpl for Assignment {
    open spec fn obeys_eq_spec() -> bool {
        true
    }

    open spec fn eq_spec(&self, other: &Assignment) -> bool {
        self.deep_view() == other.deep_view()
    }
}

impl PartialEq for VarAccess {
    fn eq(&self, other: &VarAccess) -> (r: bool) {
        let names_eq = match (&self.name, &other.name) {
            (None, None) => true,
            (Some(a), Some(b)) => *a == *b,
            _ => false,
        };
        self.load_or_store == other.load_or_store && names_eq
    }
}

impl vstd::std_specs::cmp::PartialEqSpecImpl for VarAccess {
    open spec fn obeys_eq_spec() -> bool {
        true
    }

    open spec fn eq_spec(&self, other: &VarAccess) -> bool {
        self.deep_view() == other.deep_view()
    }
}

impl PartialEq for VariableExpr {
    fn eq(&self, other: &VariableExpr) -> (r: bool) {
        match (self, other) {
            (VariableExpr::Assignment(a), VariableExpr::Assignment(b)) => a == b,
            (VariableExpr::Access(a), VariableExpr::Access(b)) => a == b,
            _ => false,
        }
    }
}

impl vstd::std_specs::cmp::PartialEqSpecImpl for VariableExpr {
    open spec fn obeys_eq_spec() -> bool {
        true
    }

    open spec fn eq_spec(&self, other: &VariableExpr) -> bool {
        self.deep_view() == other.deep_view()
    }
}

impl PartialEq for LabeledStatement {
    fn eq(&self, other: &LabeledStatement) -> (r: bool) {
        self.label == other.label && self.ins == other.ins
    }
}

impl vstd::std_specs::cmp::PartialEqSpecImpl for LabeledStatement {
    open spec fn obeys_eq_spec() -> bool {
        true
    }

    open spec fn eq_spec(&self, other: &LabeledStatement) -> bool {
        self.deep_view() == other.deep_view()
    }
}

impl PartialEq for Statement {
    fn eq(&self, other: &Statement) -> (r: bool) {
        match (self, other) {
            (Statement::Ins(a), Statement::Ins(b)) => a == b,
            (Statement::VarExpr(a), Statement::VarExpr(b)) => a == b,
            (Statement::LabeledStatement(a), Statement::LabeledStatement(b)) => a == b,
            (Statement::Goto(a), Statement::Goto(b)) => *a == *b,
            (Statement::GotoEqual(a), Statement::GotoEqual(b)) => *a == *b,
            (Statement::Call(a), Statement::Call(b)) => *a == *b,
            (Statement::Comment(a), Statement::Comment(b)) => *a == *b,
            _ => false,
        }
    }
}

impl vstd::std_specs::cmp::PartialEqSpecImpl for Statement {
    open spec fn obeys_eq_spec() -> bool {
        true
    }

    open spec fn eq_spec(&self, other: &Statement) -> bool {
        self.deep_view() == other.deep_view()
    }
}

impl PartialEq for Code {
    fn eq(&self, other: &Code) -> (r: bool) {
        let r = self.lines == other.lines;
        proof {
            if r {
                assert forall|i: int| 0 <= i < self.lines@.len() implies self.deep_view()[i]
                    == other.deep_view()[i] by {
                    assert(self.lines[i].eq_spec(&other.lines[i]));
                }
                assert(self.deep_view() =~= other.deep_view());
            } else {
                if self.deep_view() == other.deep_view() {
                    assert(self.deep_view().len() == self.lines@.len());
                    assert(other.deep_view().len() == other.lines@.len());
                    assert(self.lines@.len() == other.lines@.len());
                    assert forall|i: int| 0 <= i < self.lines@.len() implies (
                    #[trigger] self.lines[i]).eq_spec(&other.lines[i]) by {
                        assert(self.deep_view()[i] == self.lines@[i].deep_view());
                        assert(other.deep_view()[i] == other.lines@[i].deep_view());
                        assert(self.deep_view()[i] == other.deep_view()[i]);
                    }
                    assert(self.lines.eq_spec(&other.lines));
                }
            }
        }
        r
    }
}

impl vstd::std_specs::cmp::PartialEqSpecImpl for Code {
    open spec fn obeys_eq_spec() -> bool {
        true
    }

    open spec fn eq_spec(&self, other: &Code) -> bool {
        self.deep_view() == other.deep_view()
    }
}

// ---------------------------------------------------------------------------
// Character classes and literals
// ---------------------------------------------------------------------------
pub open spec fn is_digit_char(c: char) -> bool {
    48 <= c as u32 && c as u32 <= 57
}

/// The characters accepted in labels and variable names.
pub open spec fn is_alnum_char(c: char) -> bool {
    is_digit_char(c) || (97 <= c as u32 && c as u32 <= 122) || (65 <= c as u32 && c as u32 <= 90)
}

pub open spec fn all_alnum(s: Seq<char>) -> bool {
    forall|i: int| 0 <= i < s.len() ==> is_alnum_char(#[trigger] s[i])
}

/// A label or variable name: one or more alphanumeric characters.
pub open spec fn is_name_text(s: Seq<char>) -> bool {
    s.len() >= 1 && all_alnum(s)
}

/// The length of the longest alphanumeric prefix of `s`.
pub open spec fn alnum_prefix_len(s: Seq<char>) -> int
    decreases s.len(),
{
    if s.len() == 0 || !is_alnum_char(s[0]) {
        0
    } else {
        1 + alnum_prefix_len(s.skip(1))
    }
}

pub open spec fn all_digits(s: Seq<char>) -> bool {
    forall|i: int| 0 <= i < s.len() ==> is_digit_char(#[trigger] s[i])
}

pub open spec fn is_digits(s: Seq<char>) -> bool {
    s.len() >= 1 && all_digits(s)
}

/// The value of a digit string, read in decimal.
pub open spec fn digits_val(s: Seq<char>) -> int
    decreases s.len(),
{
    if s.len() == 0 {
        0
    } else {
        digits_val(s.drop_last()) * 10 + (s.last() as u32 - 48)
    }
}

/// An integer literal: an optional leading minus, then one or more digits.
pub open spec fn is_int_lit(s: Seq<char>) -> bool {
    is_digits(s) || (s.len() >= 2 && s[0] == '-' && is_digits(s.skip(1)))
}

pub open spec fn int_lit_digits(s: Seq<char>) -> Seq<char> {
    if s.len() > 0 && s[0] == '-' {
        s.skip(1)
    } else {
        s
    }
}

pub open spec fn int_lit_val(s: Seq<char>) -> int {
    if s.len() > 0 && s[0] == '-' {
        -digits_val(s.skip(1))
    } else {
        digits_val(s)
    }
}

/// Whether the literal's magnitude fits a signed 64-bit constant.
pub open spec fn int_lit_fits(s: Seq<char>) -> bool {
    digits_val(int_lit_digits(s)) <= i64::MAX
}

// ---------------------------------------------------------------------------
// Statement forms, one spec function per keyword family
// ---------------------------------------------------------------------------
pub open spec fn has_prefix(s: Seq<char>, p: Seq<char>) -> bool {
    p.len() <= s.len() && forall|j: int| 0 <= j < p.len() ==> s[j] == #[trigger] p[j]
}

pub open spec fn kw_goto() -> Seq<char> {
    seq!['g', 'o', 't', 'o', ' ']
}

pub open spec fn kw_goto_equal() -> Seq<char> {
    seq!['g', 'o', 't', 'o', 'E', 'q', 'u', 'a', 'l', ' ']
}

pub open spec fn kw_push() -> Seq<char> {
    seq!['p', 'u', 's', 'h', ' ']
}

pub open spec fn kw_call() -> Seq<char> {
    seq!['c', 'a', 'l', 'l', ' ']
}

pub open spec fn kw_var() -> Seq<char> {
    seq!['v', 'a', 'r', ' ']
}

pub open spec fn kw_comment() -> Seq<char> {
    seq!['/', '/']
}

pub open spec fn kw_label_open() -> Seq<char> {
    seq!['!', '!', '[']
}

pub open spec fn kw_label_close() -> Seq<char> {
    seq![']', ' ']
}

pub open spec fn kw_load() -> Seq<char> {
    seq!['l', 'o', 'a', 'd']
}

pub open spec fn kw_store() -> Seq<char> {
    seq!['s', 't', 'o', 'r', 'e']
}

/// The parameterless mnemonics and the instruction each denotes.
/// `return` is a jump that consumes the return address on the stack.
pub open spec fn plain_op_of(s: Seq<char>) -> Option<Instruction> {
    if s == seq!['l', 'o', 'a', 'd'] {
        Some(Instruction::Load)
    } else if s == seq!['s', 't', 'o', 'r', 'e'] {
        Some(Instruction::Store)
    } else if s == seq!['p', 'o', 'p'] {
        Some(Instruction::Pop)
    } else if s == seq!['r', 'e', 'P', 'u', 's', 'h'] {
        Some(Instruction::RePush)
    } else if s == seq!['n', 'o', 'O', 'p'] {
        Some(Instruction::NoOp)
    } else if s == seq!['r', 'e', 't', 'u', 'r', 'n'] {
        Some(Instruction::Goto)
    } else if s == seq!['a', 'd', 'd'] {
        Some(Instruction::Add)
    } else if s == seq!['s', 'u', 'b'] {
        Some(Instruction::Sub)
    } else if s == seq!['m', 'u', 'l'] {
        Some(Instruction::Mul)
    } else if s == seq!['d', 'i', 'v'] {
        Some(Instruction::Div)
    } else {
        None
    }
}

/// `goto <label>` and `gotoEqual <label>`.
pub open spec fn goto_of(l: Seq<char>) -> Option<StmtV> {
    if has_prefix(l, kw_goto_equal()) {
        if is_name_text(l.skip(10)) {
            Some(StmtV::GotoEqual(l.skip(10)))
        } else {
            None
        }
    } else if has_prefix(l, kw_goto()) {
        if is_name_text(l.skip(5)) {
            Some(StmtV::Goto(l.skip(5)))
        } else {
            None
        }
    } else {
        None
    }
}

/// `push <integer>`; a literal whose magnitude overflows is malformed.
pub open spec fn push_of(l: Seq<char>) -> Option<StmtV> {
    if has_prefix(l, kw_push()) && is_int_lit(l.skip(5)) && int_lit_fits(l.skip(5)) {
        Some(StmtV::Ins(Instruction::Push(int_lit_val(l.skip(5)) as i64)))
    } else {
        None
    }
}

/// `call <label>`.
pub open spec fn call_of(l: Seq<char>) -> Option<StmtV> {
    if has_prefix(l, kw_call()) && is_name_text(l.skip(5)) {
        Some(StmtV::Call(l.skip(5)))
    } else {
        None
    }
}

/// `//` followed by the rest of the line.
pub open spec fn comment_of(l: Seq<char>) -> Option<StmtV> {
    if has_prefix(l, kw_comment()) && (forall|i: int|
        2 <= i < l.len() ==> #[trigger] l[i] != '\r' && l[i] != '\n') {
        Some(StmtV::Comment(l.skip(2)))
    } else {
        None
    }
}

/// `var <name> = <integer>`; the name is the longest alphanumeric run.
pub open spec fn assign_of(l: Seq<char>) -> Option<StmtV> {
    if !has_prefix(l, kw_var()) {
        None
    } else {
        let rest = l.skip(4);
        let k = alnum_prefix_len(rest);
        if k >= 1 && rest.len() >= k + 3 && rest[k] == ' ' && rest[k + 1] == '=' && rest[k + 2]
            == ' ' && is_int_lit(rest.skip(k + 3)) && int_lit_fits(rest.skip(k + 3)) {
            Some(
                StmtV::VarExpr(
                    VarExprV::Assignment(
                        AssignmentV {
                            name: rest.take(k),
                            value: int_lit_val(rest.skip(k + 3)) as i64,
                        },
                    ),
                ),
            )
        } else {
            None
        }
    }
}

/// What may follow `load` or `store`: nothing, a lone space, or a name with
/// or without one separating space.
pub open spec fn access_name_of(rest: Seq<char>) -> Option<Option<Seq<char>>> {
    if rest.len() == 0 {
        Some(None)
    } else if rest[0] == ' ' {
        if rest.len() == 1 {
            Some(None)
        } else if is_name_text(rest.skip(1)) {
            Some(Some(rest.skip(1)))
        } else {
            None
        }
    } else if is_name_text(rest) {
        Some(Some(rest))
    } else {
        None
    }
}

pub open spec fn access_of(l: Seq<char>, kwlen: int, mode: LoadOrStore) -> Option<StmtV> {
    match access_name_of(l.skip(kwlen)) {
        Some(name) => Some(
            StmtV::VarExpr(VarExprV::Access(VarAccessV { load_or_store: mode, name })),
        ),
        None => None,
    }
}

/// A `load` or `store` access, bare or named.
pub open spec fn ls_of(l: Seq<char>) -> Option<StmtV> {
    if has_prefix(l, kw_load()) {
        access_of(l, 4, LoadOrStore::Load)
    } else if has_prefix(l, kw_store()) {
        access_of(l, 5, LoadOrStore::Store)
    } else {
        None
    }
}

/// Either variable statement form.
pub open spec fn var_expr_of(l: Seq<char>) -> Option<StmtV> {
    if has_prefix(l, kw_var()) {
        assign_of(l)
    } else {
        ls_of(l)
    }
}

/// The statements allowed under a label: a plain mnemonic or a push.
pub open spec fn inner_op_of(s: Seq<char>) -> Option<Instruction> {
    if plain_op_of(s) is Some {
        plain_op_of(s)
    } else if has_prefix(s, kw_push()) && is_int_lit(s.skip(5)) && int_lit_fits(s.skip(5)) {
        Some(Instruction::Push(int_lit_val(s.skip(5)) as i64))
    } else {
        None
    }
}

/// `!![<label>] <op>`.
pub open spec fn labeled_of(l: Seq<char>) -> Option<StmtV> {
    if !has_prefix(l, kw_label_open()) {
        None
    } else {
        let rest = l.skip(3);
        let k = alnum_prefix_len(rest);
        if k >= 1 && rest.len() >= k + 2 && rest[k] == ']' && rest[k + 1] == ' ' && inner_op_of(
            rest.skip(k + 2),
        ) is Some {
            Some(
                StmtV::LabeledStatement(
                    LabeledV { label: rest.take(k), ins: inner_op_of(rest.skip(k + 2))->0 },
                ),
            )
        } else {
            None
        }
    }
}

/// The statement a whole source line denotes, or `None` when the line is
/// malformed.  The leading keyword decides which form can apply; `gotoEqual`
/// is tried before its prefix `goto`.
pub open spec fn stmt_of_line(l: Seq<char>) -> Option<StmtV> {
    if has_prefix(l, kw_label_open()) {
        labeled_of(l)
    } else if has_prefix(l, kw_goto_equal()) || has_prefix(l, kw_goto()) {
        goto_of(l)
    } else if has_prefix(l, kw_push()) {
        push_of(l)
    } else if has_prefix(l, kw_call()) {
        call_of(l)
    } else if has_prefix(l, kw_comment()) {
        comment_of(l)
    } else if has_prefix(l, kw_var()) {
        assign_of(l)
    } else if has_prefix(l, kw_load()) || has_prefix(l, kw_store()) {
        ls_of(l)
    } else {
        match plain_op_of(l) {
            Some(i) => Some(StmtV::Ins(i)),
            None => None,
        }
    }
}

// ---------------------------------------------------------------------------
// Splitting a source text into lines
// ---------------------------------------------------------------------------
/// The position of the first line feed, if any.
pub open spec fn first_nl(s: Seq<char>) -> Option<int>
    decreases s.len(),
{
    if s.len() == 0 {
        None
    } else if s[0] == '\n' {
        Some(0)
    } else {
        match first_nl(s.skip(1)) {
            None => None,
            Some(j) => Some(j + 1),
        }
    }
}

pub proof fn lemma_first_nl_range(s: Seq<char>)
    ensures
        match first_nl(s) {
            Some(i) => 0 <= i < s.len() && s[i] == '\n' && (forall|j: int|
                0 <= j < i ==> s[j] != '\n'),
            None => forall|j: int| 0 <= j < s.len() ==> s[j] != '\n',
        },
    decreases s.len(),
{
    if s.len() > 0 && s[0] != '\n' {
        lemma_first_nl_range(s.skip(1));
        assert forall|j: int| 0 <= j < s.len() && j >= 1 implies s.skip(1)[j - 1] == s[j] by {}
    }
}

/// The pieces of `s` between line feeds; always one more piece than feeds.
pub open spec fn raw_lines(s: Seq<char>) -> Seq<Seq<char>>
    decreases s.len(),
    via raw_lines_decreases
{
    match first_nl(s) {
        None => seq![s],
        Some(i) => seq![s.take(i)] + raw_lines(s.skip(i + 1)),
    }
}

#[via_fn]
proof fn raw_lines_decreases(s: Seq<char>) {
    lemma_first_nl_range(s);
}

/// A carriage return just before a line feed (or at the very end) belongs to
/// the separator, not to the line.
pub open spec fn strip_cr(l: Seq<char>) -> Seq<char> {
    if l.len() > 0 && l.last() == '\r' {
        l.drop_last()
    } else {
        l
    }
}

/// The source lines a text divides into.
pub open spec fn lines_of(s: Seq<char>) -> Seq<Seq<char>> {
    raw_lines(s).map_values(|l: Seq<char>| strip_cr(l))
}

/// Every line of the text is a well-formed statement.
pub open spec fn parse_ok(s: Seq<char>) -> bool {
    forall|i: int| 0 <= i < lines_of(s).len() ==> (#[trigger] stmt_of_line(lines_of(s)[i])) is Some
}

/// The statements of a well-formed text, in line order.
pub open spec fn parsed_stmts(s: Seq<char>) -> Seq<StmtV> {
    Seq::new(lines_of(s).len(), |i: int| stmt_of_line(lines_of(s)[i])->0)
}

pub proof fn lemma_raw_lines_count(s: Seq<char>)
    ensures
        1 <= raw_lines(s).len() <= s.len() + 1,
    decreases s.len(),
{
    lemma_first_nl_range(s);
    match first_nl(s) {
        None => {},
        Some(i) => {
            lemma_raw_lines_count(s.skip(i + 1));
        },
    }
}

/// Line `k` is the first malformed line of the text, and `detail` is its text.
pub open spec fn first_bad_line(s: Seq<char>, k: int, detail: Seq<char>) -> bool {
    &&& 0 <= k < lines_of(s).len()
    &&& stmt_of_line(lines_of(s)[k]) is None
    &&& detail == lines_of(s)[k]
    &&& forall|j: int| 0 <= j < k ==> (#[trigger] stmt_of_line(lines_of(s)[j])) is Some
}

proof fn lemma_first_nl_found(s: Seq<char>, start: int, i: int)
    requires
        0 <= start <= i < s.len(),
        s[i] == '\n',
        forall|j: int| start <= j < i ==> s[j] != '\n',
    ensures
        first_nl(s.skip(start)) == Some(i - start),
    decreases i - start,
{
    assert(s.skip(start)[0] == s[start]);
    if start < i {
        lemma_first_nl_found(s, start + 1, i);
        assert(s.skip(start).skip(1) =~= s.skip(start + 1));
    }
}

proof fn lemma_first_nl_none_from(s: Seq<char>, start: int)
    requires
        0 <= start <= s.len(),
        forall|j: int| start <= j < s.len() ==> s[j] != '\n',
    ensures
        first_nl(s.skip(start)) is None,
    decreases s.len() - start,
{
    if start < s.len() {
        assert(s.skip(start)[0] == s[start]);
        lemma_first_nl_none_from(s, start + 1);
        assert(s.skip(start).skip(1) =~= s.skip(start + 1));
    }
}

// ---------------------------------------------------------------------------
// Scanning helpers
// ---------------------------------------------------------------------------
fn is_digit_exec(c: char) -> (r: bool)
    ensures
        r == is_digit_char(c),
{
    let u = c as u32;
    48 <= u && u <= 57
}

fn is_alnum_exec(c: char) -> (r: bool)
    ensures
        r == is_alnum_char(c),
{
    let u = c as u32;
    (48 <= u && u <= 57) || (97 <= u && u <= 122) || (65 <= u && u <= 90)
}

fn has_prefix_exec(s: &str, slen: usize, p: &str) -> (r: bool)
    requires
        slen == s@.len(),
    ensures
        r == has_prefix(s@, p@),
{
    let m = p.unicode_len();
    if m > slen {
        return false;
    }
    let mut i: usize = 0;
    while i < m
        invariant
            0 <= i <= m,
            m <= slen,
            m == p@.len(),
            slen == s@.len(),
            forall|j: int| 0 <= j < i ==> s@[j] == #[trigger] p@[j],
        decreases m - i,
    {
        if s.get_char(i) != p.get_char(i) {
            return false;
        }
        i += 1;
    }
    true
}

/// Checks that the characters of `s` in `[from, to)` form a label or
/// variable name.
fn name_text_range(s: &str, from: usize, to: usize) -> (r: bool)
    requires
        from <= to <= s@.len(),
    ensures
        r == is_name_text(s@.subrange(from as int, to as int)),
{
    if to == from {
        return false;
    }
    let mut i: usize = from;
    while i < to
        invariant
            from <= i <= to <= s@.len(),
            forall|j: int| from <= j < i ==> is_alnum_char(#[trigger] s@[j]),
        decreases to - i,
    {
        if !is_alnum_exec(s.get_char(i)) {
            assert(!is_alnum_char(s@.subrange(from as int, to as int)[i - from]));
            return false;
        }
        i += 1;
    }
    assert forall|j: int| 0 <= j < to - from implies is_alnum_char(
        #[trigger] s@.subrange(from as int, to as int)[j],
    ) by {
        assert(s@.subrange(from as int, to as int)[j] == s@[from + j]);
    }
    true
}

/// The end of the alphanumeric run that starts at `from`.
fn alnum_run_end(s: &str, from: usize, slen: usize) -> (e: usize)
    requires
        from <= slen,
        slen == s@.len(),
    ensures
        from <= e <= slen,
        forall|j: int| from <= j < e ==> is_alnum_char(#[trigger] s@[j]),
        e < slen ==> !is_alnum_char(s@[e as int]),
{
    let mut i: usize = from;
    while i < slen
        invariant
            from <= i <= slen,
            slen == s@.len(),
            forall|j: int| from <= j < i ==> is_alnum_char(#[trigger] s@[j]),
        decreases slen - i,
    {
        if !is_alnum_exec(s.get_char(i)) {
            return i;
        }
        i += 1;
    }
    slen
}

/// Relates a pointwise-checked run to `alnum_prefix_len`.
proof fn lemma_alnum_prefix_len_is(s: Seq<char>, k: int)
    requires
        0 <= k <= s.len(),
        forall|j: int| 0 <= j < k ==> is_alnum_char(#[trigger] s[j]),
        k < s.len() ==> !is_alnum_char(s[k]),
    ensures
        alnum_prefix_len(s) == k,
    decreases s.len(),
{
    if k == 0 {
    } else {
        assert(is_alnum_char(s[0]));
        assert forall|j: int| 0 <= j < k - 1 implies is_alnum_char(#[trigger] s.skip(1)[j]) by {
            assert(s.skip(1)[j] == s[j + 1]);
        }
        if k - 1 < s.skip(1).len() {
            assert(s.skip(1)[k - 1] == s[k]);
        }
        lemma_alnum_prefix_len_is(s.skip(1), k - 1);
    }
}

/// Copies the characters of `s` in `[from, to)` into an owned string.
fn substr_string(s: &str, from: usize, to: usize) -> (r: String)
    requires
        from <= to <= s@.len(),
    ensures
        r@ == s@.subrange(from as int, to as int),
{
    String::from_str(s.substring_char(from, to))
}

fn syntax_err(line: &str) -> (e: ExecError)
    ensures
        e.kind == ErrorKind::SyntaxError,
        e.details@ == line@,
{
    ExecError::new(ErrorKind::SyntaxError, line)
}

// ---------------------------------------------------------------------------
// Integer literals
// ---------------------------------------------------------------------------
proof fn lemma_digits_val_nonneg(s: Seq<char>)
    requires
        all_digits(s),
    ensures
        digits_val(s) >= 0,
    decreases s.len(),
{
    if s.len() > 0 {
        assert forall|j: int| 0 <= j < s.drop_last().len() implies is_digit_char(
            #[trigger] s.drop_last()[j],
        ) by {
            assert(s.drop_last()[j] == s[j]);
        }
        lemma_digits_val_nonneg(s.drop_last());
        assert(digits_val(s.drop_last()) * 10 >= 0) by (nonlinear_arith)
            requires
                digits_val(s.drop_last()) >= 0,
        ;
    }
}

/// A digit string is worth at least any of its prefixes.
proof fn lemma_digits_prefix_le(s: Seq<char>, j: int)
    requires
        0 <= j <= s.len(),
        all_digits(s),
    ensures
        digits_val(s.take(j)) <= digits_val(s),
    decreases s.len() - j,
{
    if j == s.len() {
        assert(s.take(j) =~= s);
    } else {
        assert(s.take(j + 1).drop_last() =~= s.take(j));
        assert forall|m: int| 0 <= m < j implies is_digit_char(#[trigger] s.take(j)[m]) by {
            assert(s.take(j)[m] == s[m]);
        }
        lemma_digits_val_nonneg(s.take(j));
        let v = digits_val(s.take(j));
        assert(s.take(j + 1).last() == s[j]);
        assert(v <= v * 10) by (nonlinear_arith)
            requires
                v >= 0,
        ;
        assert(is_digit_char(s[j]));
        assert(digits_val(s.take(j + 1)) == v * 10 + (s[j] as u32 - 48));
        lemma_digits_prefix_le(s, j + 1);
    }
}

/// Parses a decimal integer literal with an optional leading minus.
pub fn number(input: &str) -> (r: Result<i64, ExecError>)
    ensures
        match r {
            Ok(v) => is_int_lit(input@) && int_lit_fits(input@) && v as int == int_lit_val(input@),
            Err(e) => !(is_int_lit(input@) && int_lit_fits(input@)) && e.kind
                == ErrorKind::SyntaxError && e.details@ == input@,
        },
{
    let n = input.unicode_len();
    let neg = n > 0 && input.get_char(0) == '-';
    let start: usize = if neg {
        1
    } else {
        0
    };
    if start >= n {
        // no digits at all
        return Err(syntax_err(input));
    }
    // First pass: every remaining character must be a digit.
    let mut i: usize = start;
    while i < n
        invariant
            start <= i <= n,
            n == input@.len(),
            start == 1 <==> (n > 0 && input@[0] == '-'),
            start <= 1,
            start < n,
            forall|j: int| start <= j < i ==> is_digit_char(#[trigger] input@[j]),
        decreases n - i,
    {
        if !is_digit_exec(input.get_char(i)) {
            proof {
                assert(!is_digit_char(input@[i as int]));
                assert(!is_digits(input@));
                if i >= 1 {
                    assert(input@.skip(1)[i - 1] == input@[i as int]);
                    assert(!is_digits(input@.skip(1)));
                } else {
                    // i == 0, so start == 0 and the line does not begin with '-'
                    assert(input@[0] != '-');
                }
            }
            return Err(syntax_err(input));
        }
        i += 1;
    }
    let ghost digs = input@.subrange(start as int, n as int);
    proof {
        assert forall|j: int| 0 <= j < digs.len() implies is_digit_char(#[trigger] digs[j]) by {
            assert(digs[j] == input@[start + j]);
        }
        if neg {
            assert(digs =~= input@.skip(1));
        } else {
            assert(digs =~= input@);
        }
        assert(digs == int_lit_digits(input@));
    }
    // Second pass: accumulate, rejecting literals beyond the 64-bit range.
    let mut acc: u64 = 0;
    let mut i: usize = start;
    while i < n
        invariant
            start <= i <= n,
            n == input@.len(),
            start < n,
            start <= 1,
            start == 1 <==> (n > 0 && input@[0] == '-'),
            digs == input@.subrange(start as int, n as int),
            digs == int_lit_digits(input@),
            all_digits(digs),
            forall|j: int| start <= j < n ==> is_digit_char(#[trigger] input@[j]),
            acc <= i64::MAX as u64,
            acc as int == digits_val(input@.subrange(start as int, i as int)),
        decreases n - i,
    {
        let c = input.get_char(i);
        assert(is_digit_char(c));
        let d: u64 = c as u32 as u64 - 48;
        let limit: u64 = (0x7fff_ffff_ffff_ffffu64 - d) / 10;
        proof {
            let m = (i64::MAX - d) as int;
            vstd::arithmetic::div_mod::lemma_fundamental_div_mod(m, 10);
            let prefix = input@.subrange(start as int, i + 1);
            assert(prefix.drop_last() =~= input@.subrange(start as int, i as int));
            assert(prefix.last() == input@[i as int]);
            assert(digits_val(prefix) == acc * 10 + d);
            if acc > limit {
                // the literal read so far already exceeds i64::MAX
                assert(acc as int >= m / 10 + 1);
                assert(acc * 10 >= (m / 10 + 1) * 10);
                assert((m / 10 + 1) * 10 == 10 * (m / 10) + 10);
                assert(digits_val(prefix) > i64::MAX);
                assert(digs.take(i + 1 - start) =~= prefix);
                lemma_digits_prefix_le(digs, i + 1 - start);
            }
        }
        if acc > limit {
            return Err(syntax_err(input));
        }
        acc = acc * 10 + d;
        i += 1;
    }
    proof {
        assert(input@.subrange(start as int, n as int) == digs);
    }
    let v = acc as i64;
    if neg {
        Ok(-v)
    } else {
        Ok(v)
    }
}

// ---------------------------------------------------------------------------
// One parser per statement form
// ---------------------------------------------------------------------------
/// Tests a whole line against one literal mnemonic.
fn str_eq_lit(s: &str, slen: usize, p: &str) -> (r: bool)
    requires
        slen == s@.len(),
    ensures
        r == (s@ == p@),
{
    let m = p.unicode_len();
    if m != slen {
        return false;
    }
    let r = has_prefix_exec(s, slen, p);
    proof {
        if r {
            assert(s@ =~= p@);
        } else {
            if s@ == p@ {
                assert(forall|j: int| 0 <= j < p@.len() ==> s@[j] == #[trigger] p@[j]);
            }
        }
    }
    r
}

/// Looks a full line up among the parameterless mnemonics.
fn plain_lookup(s: &str, slen: usize) -> (r: Option<Instruction>)
    requires
        slen == s@.len(),
    ensures
        r == plain_op_of(s@),
{
    proof {
        reveal_strlit("load");
        reveal_strlit("store");
        reveal_strlit("pop");
        reveal_strlit("rePush");
        reveal_strlit("noOp");
        reveal_strlit("return");
        reveal_strlit("add");
        reveal_strlit("sub");
        reveal_strlit("mul");
        reveal_strlit("div");
        assert("load"@ =~= seq!['l', 'o', 'a', 'd']);
        assert("store"@ =~= seq!['s', 't', 'o', 'r', 'e']);
        assert("pop"@ =~= seq!['p', 'o', 'p']);
        assert("rePush"@ =~= seq!['r', 'e', 'P', 'u', 's', 'h']);
        assert("noOp"@ =~= seq!['n', 'o', 'O', 'p']);
        assert("return"@ =~= seq!['r', 'e', 't', 'u', 'r', 'n']);
        assert("add"@ =~= seq!['a', 'd', 'd']);
        assert("sub"@ =~= seq!['s', 'u', 'b']);
        assert("mul"@ =~= seq!['m', 'u', 'l']);
        assert("div"@ =~= seq!['d', 'i', 'v']);
    }
    if str_eq_lit(s, slen, "load") {
        Some(Instruction::Load)
    } else if str_eq_lit(s, slen, "store") {
        Some(Instruction::Store)
    } else if str_eq_lit(s, slen, "pop") {
        Some(Instruction::Pop)
    } else if str_eq_lit(s, slen, "rePush") {
        Some(Instruction::RePush)
    } else if str_eq_lit(s, slen, "noOp") {
        Some(Instruction::NoOp)
    } else if str_eq_lit(s, slen, "return") {
        Some(Instruction::Goto)
    } else if str_eq_lit(s, slen, "add") {
        Some(Instruction::Add)
    } else if str_eq_lit(s, slen, "sub") {
        Some(Instruction::Sub)
    } else if str_eq_lit(s, slen, "mul") {
        Some(Instruction::Mul)
    } else if str_eq_lit(s, slen, "div") {
        Some(Instruction::Div)
    } else {
        None
    }
}

/// Parses a parameterless instruction line.
pub fn plain_statement(input: &str) -> (r: Result<Statement, ExecError>)
    ensures
        match r {
            Ok(s) => plain_op_of(input@) is Some && s.deep_view() == StmtV::Ins(
                plain_op_of(input@)->0,
            ),
            Err(e) => plain_op_of(input@) is None && e.kind == ErrorKind::SyntaxError
                && e.details@ == input@,
        },
{
    let n = input.unicode_len();
    match plain_lookup(input, n) {
        Some(i) => Ok(Statement::Ins(i)),
        None => Err(syntax_err(input)),
    }
}

/// Parses `goto <label>` or `gotoEqual <label>`.
pub fn goto(input: &str) -> (r: Result<Statement, ExecError>)
    ensures
        match r {
            Ok(s) => goto_of(input@) == Some(s.deep_view()),
            Err(e) => goto_of(input@) is None && e.kind == ErrorKind::SyntaxError && e.details@
                == input@,
        },
{
    let n = input.unicode_len();
    proof {
        reveal_strlit("gotoEqual ");
        reveal_strlit("goto ");
        assert("gotoEqual "@ =~= kw_goto_equal());
        assert("goto "@ =~= kw_goto());
    }
    if has_prefix_exec(input, n, "gotoEqual ") {
        proof {
            assert(input@.subrange(10, n as int) =~= input@.skip(10));
        }
        if name_text_range(input, 10, n) {
            Ok(Statement::GotoEqual(substr_string(input, 10, n)))
        } else {
            Err(syntax_err(input))
        }
    } else if has_prefix_exec(input, n, "goto ") {
        proof {
            assert(input@.subrange(5, n as int) =~= input@.skip(5));
        }
        if name_text_range(input, 5, n) {
            Ok(Statement::Goto(substr_string(input, 5, n)))
        } else {
            Err(syntax_err(input))
        }
    } else {
        Err(syntax_err(input))
    }
}

/// Parses `call <label>`.
pub fn call(input: &str) -> (r: Result<Statement, ExecError>)
    ensures
        match r {
            Ok(s) => call_of(input@) == Some(s.deep_view()),
            Err(e) => call_of(input@) is None && e.kind == ErrorKind::SyntaxError && e.details@
                == input@,
        },
{
    let n = input.unicode_len();
    proof {
        reveal_strlit("call ");
        assert("call "@ =~= kw_call());
    }
    if has_prefix_exec(input, n, "call ") {
        proof {
            assert(input@.subrange(5, n as int) =~= input@.skip(5));
        }
        if name_text_range(input, 5, n) {
            Ok(Statement::Call(substr_string(input, 5, n)))
        } else {
            Err(syntax_err(input))
        }
    } else {
        Err(syntax_err(input))
    }
}

/// Parses `push <integer>`.
pub fn push(input: &str) -> (r: Result<Statement, ExecError>)
    ensures
        match r {
            Ok(s) => push_of(input@) == Some(s.deep_view()),
            Err(e) => push_of(input@) is None && e.kind == ErrorKind::SyntaxError && e.details@
                == input@,
        },
{
    let n = input.unicode_len();
    proof {
        reveal_strlit("push ");
        assert("push "@ =~= kw_push());
    }
    if has_prefix_exec(input, n, "push ") {
        let rest = input.substring_char(5, n);
        proof {
            assert(rest@ =~= input@.skip(5));
        }
        match number(rest) {
            Ok(v) => Ok(Statement::Ins(Instruction::Push(v))),
            Err(_) => Err(syntax_err(input)),
        }
    } else {
        Err(syntax_err(input))
    }
}

/// Parses a `//` comment line.
pub fn comment(input: &str) -> (r: Result<Statement, ExecError>)
    ensures
        match r {
            Ok(s) => comment_of(input@) == Some(s.deep_view()),
            Err(e) => comment_of(input@) is None && e.kind == ErrorKind::SyntaxError && e.details@
                == input@,
        },
{
    let n = input.unicode_len();
    proof {
        reveal_strlit("//");
        assert("//"@ =~= kw_comment());
    }
    if !has_prefix_exec(input, n, "//") {
        return Err(syntax_err(input));
    }
    let mut i: usize = 2;
    while i < n
        invariant
            2 <= i <= n,
            n == input@.len(),
            forall|j: int| 2 <= j < i ==> #[trigger] input@[j] != '\r' && input@[j] != '\n',
        decreases n - i,
    {
        let c = input.get_char(i);
        if c == '\r' || c == '\n' {
            return Err(syntax_err(input));
        }
        i += 1;
    }
    proof {
        assert(input@.subrange(2, n as int) =~= input@.skip(2));
    }
    Ok(Statement::Comment(substr_string(input, 2, n)))
}

/// Parses `var <name> = <integer>`.
pub fn assignment(input: &str) -> (r: Result<VariableExpr, ExecError>)
    ensures
        match r {
            Ok(v) => assign_of(input@) == Some(StmtV::VarExpr(v.deep_view())),
            Err(e) => assign_of(input@) is None && e.kind == ErrorKind::SyntaxError && e.details@
                == input@,
        },
{
    let n = input.unicode_len();
    proof {
        reveal_strlit("var ");
        assert("var "@ =~= kw_var());
    }
    if !has_prefix_exec(input, n, "var ") {
        return Err(syntax_err(input));
    }
    let e = alnum_run_end(input, 4, n);
    let ghost rest = input@.skip(4);
    proof {
        assert forall|j: int| 0 <= j < rest.len() implies rest[j] == input@[4 + j] by {}
        lemma_alnum_prefix_len_is(rest, e - 4);
    }
    let k = e - 4;
    if k == 0 {
        return Err(syntax_err(input));
    }
    if n < 3 || e > n - 3 {
        return Err(syntax_err(input));
    }
    if input.get_char(e) != ' ' || input.get_char(e + 1) != '=' || input.get_char(e + 2) != ' ' {
        return Err(syntax_err(input));
    }
    let lit = input.substring_char(e + 3, n);
    proof {
        assert(lit@ =~= rest.skip(k + 3));
    }
    match number(lit) {
        Ok(v) => {
            let name = substr_string(input, 4, e);
            proof {
                assert(name@ =~= rest.take(k as int));
            }
            Ok(VariableExpr::Assignment(Assignment { name, value: v }))
        },
        Err(_) => Err(syntax_err(input)),
    }
}

/// Parses `load`/`store` with an optional variable name.
pub fn load_store(input: &str) -> (r: Result<VariableExpr, ExecError>)
    ensures
        match r {
            Ok(v) => ls_of(input@) == Some(StmtV::VarExpr(v.deep_view())),
            Err(e) => ls_of(input@) is None && e.kind == ErrorKind::SyntaxError && e.details@
                == input@,
        },
{
    let n = input.unicode_len();
    proof {
        reveal_strlit("load");
        reveal_strlit("store");
        assert("load"@ =~= kw_load());
        assert("store"@ =~= kw_store());
    }
    let kwlen: usize;
    let mode: LoadOrStore;
    if has_prefix_exec(input, n, "load") {
        kwlen = 4;
        mode = LoadOrStore::Load;
    } else if has_prefix_exec(input, n, "store") {
        kwlen = 5;
        mode = LoadOrStore::Store;
    } else {
        return Err(syntax_err(input));
    }
    let ghost rest = input@.skip(kwlen as int);
    proof {
        assert forall|j: int| 0 <= j < rest.len() implies rest[j] == input@[kwlen + j] by {}
    }
    if n == kwlen {
        return Ok(VariableExpr::Access(VarAccess { load_or_store: mode, name: None }));
    }
    if input.get_char(kwlen) == ' ' {
        if n == kwlen + 1 {
            return Ok(VariableExpr::Access(VarAccess { load_or_store: mode, name: None }));
        }
        proof {
            assert(input@.subrange(kwlen + 1, n as int) =~= rest.skip(1));
        }
        if name_text_range(input, kwlen + 1, n) {
            let name = substr_string(input, kwlen + 1, n);
            Ok(VariableExpr::Access(VarAccess { load_or_store: mode, name: Some(name) }))
        } else {
            Err(syntax_err(input))
        }
    } else {
        proof {
            assert(input@.subrange(kwlen as int, n as int) =~= rest);
        }
        if name_text_range(input, kwlen, n) {
            let name = substr_string(input, kwlen, n);
            Ok(VariableExpr::Access(VarAccess { load_or_store: mode, name: Some(name) }))
        } else {
            Err(syntax_err(input))
        }
    }
}

/// Parses either variable statement form.
pub fn variable_expression(input: &str) -> (r: Result<Statement, ExecError>)
    ensures
        match r {
            Ok(s) => var_expr_of(input@) == Some(s.deep_view()),
            Err(e) => var_expr_of(input@) is None && e.kind == ErrorKind::SyntaxError && e.details@
                == input@,
        },
{
    let n = input.unicode_len();
    proof {
        reveal_strlit("var ");
        assert("var "@ =~= kw_var());
    }
    if has_prefix_exec(input, n, "var ") {
        match assignment(input) {
            Ok(v) => Ok(Statement::VarExpr(v)),
            Err(e) => Err(e),
        }
    } else {
        match load_store(input) {
            Ok(v) => Ok(Statement::VarExpr(v)),
            Err(e) => Err(e),
        }
    }
}

/// Parses the instruction part of a labeled line.
fn inner_op_exec(s: &str) -> (r: Option<Instruction>)
    ensures
        r == inner_op_of(s@),
{
    let n = s.unicode_len();
    match plain_lookup(s, n) {
        Some(i) => Some(i),
        None => {
            proof {
                reveal_strlit("push ");
                assert("push "@ =~= kw_push());
            }
            if has_prefix_exec(s, n, "push ") {
                let rest = s.substring_char(5, n);
                proof {
                    assert(rest@ =~= s@.skip(5));
                }
                match number(rest) {
                    Ok(v) => Some(Instruction::Push(v)),
                    Err(_) => None,
                }
            } else {
                None
            }
        },
    }
}

/// Parses `!![<label>] <op>`.
pub fn labled_ins(input: &str) -> (r: Result<Statement, ExecError>)
    ensures
        match r {
            Ok(s) => labeled_of(input@) == Some(s.deep_view()),
            Err(e) => labeled_of(input@) is None && e.kind == ErrorKind::SyntaxError && e.details@
                == input@,
        },
{
    let n = input.unicode_len();
    proof {
        reveal_strlit("!![");
        assert("!!["@ =~= kw_label_open());
    }
    if !has_prefix_exec(input, n, "!![") {
        return Err(syntax_err(input));
    }
    let e = alnum_run_end(input, 3, n);
    let ghost rest = input@.skip(3);
    proof {
        assert forall|j: int| 0 <= j < rest.len() implies rest[j] == input@[3 + j] by {}
        lemma_alnum_prefix_len_is(rest, e - 3);
    }
    let k = e - 3;
    if k == 0 {
        return Err(syntax_err(input));
    }
    if n < 2 || e > n - 2 {
        return Err(syntax_err(input));
    }
    if input.get_char(e) != ']' || input.get_char(e + 1) != ' ' {
        return Err(syntax_err(input));
    }
    let inner = input.substring_char(e + 2, n);
    proof {
        assert(inner@ =~= rest.skip(k + 2));
    }
    match inner_op_exec(inner) {
        Some(ins) => {
            let label = substr_string(input, 3, e);
            proof {
                assert(label@ =~= rest.take(k as int));
            }
            Ok(Statement::LabeledStatement(LabeledStatement { label, ins }))
        },
        None => Err(syntax_err(input)),
    }
}

/// Parses one source line; the leading keyword decides the only form that
/// can apply.
pub fn statement(input: &str) -> (r: Result<Statement, ExecError>)
    ensures
        match r {
            Ok(s) => stmt_of_line(input@) == Some(s.deep_view()),
            Err(e) => stmt_of_line(input@) is None && e.kind == ErrorKind::SyntaxError
                && e.details@ == input@,
        },
{
    let n = input.unicode_len();
    proof {
        reveal_strlit("!![");
        reveal_strlit("gotoEqual ");
        reveal_strlit("goto ");
        reveal_strlit("push ");
        reveal_strlit("call ");
        reveal_strlit("//");
        reveal_strlit("var ");
        reveal_strlit("load");
        reveal_strlit("store");
        assert("!!["@ =~= kw_label_open());
        assert("gotoEqual "@ =~= kw_goto_equal());
        assert("goto "@ =~= kw_goto());
        assert("push "@ =~= kw_push());
        assert("call "@ =~= kw_call());
        assert("//"@ =~= kw_comment());
        assert("var "@ =~= kw_var());
        assert("load"@ =~= kw_load());
        assert("store"@ =~= kw_store());
    }
    if has_prefix_exec(input, n, "!![") {
        labled_ins(input)
    } else if has_prefix_exec(input, n, "gotoEqual ") || has_prefix_exec(input, n, "goto ") {
        goto(input)
    } else if has_prefix_exec(input, n, "push ") {
        push(input)
    } else if has_prefix_exec(input, n, "call ") {
        call(input)
    } else if has_prefix_exec(input, n, "//") {
        comment(input)
    } else if has_prefix_exec(input, n, "var ") {
        variable_expression(input)
    } else if has_prefix_exec(input, n, "load") || has_prefix_exec(input, n, "store") {
        variable_expression(input)
    } else {
        plain_statement(input)
    }
}

/// Parses a whole source text, one statement per line.
///
/// On success the returned program contains exactly the statements of
/// `parsed_stmts`; on failure the error names the first malformed line.
pub fn code(input: &str) -> (r: Result<Code, ExecError>)
    ensures
        match r {
            Ok(c) => parse_ok(input@) && c.deep_view() == parsed_stmts(input@),
            Err(e) => {
                &&& !parse_ok(input@)
                &&& e.kind == ErrorKind::SyntaxError
                &&& exists|k: int| first_bad_line(input@, k, e.details@)
            },
        },
{
    let n = input.unicode_len();
    let mut lines: Vec<Statement> = Vec::new();
    let mut start: usize = 0;
    let mut i: usize = 0;
    let ghost mut done: Seq<Seq<char>> = Seq::empty();
    proof {
        assert(input@.skip(0) =~= input@);
    }
    while i < n
        invariant
            0 <= start <= i <= n,
            n == input@.len(),
            forall|j: int| start <= j < i ==> input@[j] != '\n',
            raw_lines(input@) == done + raw_lines(input@.skip(start as int)),
            lines@.len() == done.len(),
            forall|j: int|
                0 <= j < done.len() ==> stmt_of_line(strip_cr(#[trigger] done[j])) == Some(
                    lines@[j].deep_view(),
                ),
        decreases n - i,
    {
        let c = input.get_char(i);
        if c == '\n' {
            let end: usize = if i > start && input.get_char(i - 1) == '\r' {
                i - 1
            } else {
                i
            };
            let line = input.substring_char(start, end);
            let ghost piece = input@.subrange(start as int, i as int);
            proof {
                lemma_first_nl_found(input@, start as int, i as int);
                assert(input@.skip(start as int).take(i - start) =~= piece);
                assert(input@.skip(start as int).skip(i - start + 1) =~= input@.skip(i + 1));
                assert(raw_lines(input@.skip(start as int)) == seq![piece] + raw_lines(
                    input@.skip(i + 1),
                ));
                if i > start && input@[i - 1] == '\r' {
                    assert(piece.last() == '\r');
                    assert(strip_cr(piece) =~= line@);
                } else {
                    assert(strip_cr(piece) =~= line@);
                }
            }
            match statement(line) {
                Ok(stmt) => {
                    lines.push(stmt);
                    proof {
                        let done0 = done;
                        done = done + seq![piece];
                        assert(raw_lines(input@) == done + raw_lines(input@.skip(i + 1))) by {
                            assert((done0 + (seq![piece] + raw_lines(input@.skip(i + 1))))
                                =~= done + raw_lines(input@.skip(i + 1)));
                        }
                    }
                },
                Err(e) => {
                    proof {
                        let k = done.len() as int;
                        assert(raw_lines(input@)[k] == piece);
                        assert(lines_of(input@)[k] == strip_cr(piece));
                        assert forall|j: int| 0 <= j < k implies (#[trigger] stmt_of_line(
                            lines_of(input@)[j],
                        )) is Some by {
                            assert(raw_lines(input@)[j] == done[j]);
                        }
                        assert(first_bad_line(input@, k, e.details@));
                        assert(!parse_ok(input@));
                    }
                    return Err(e);
                },
            }
            start = i + 1;
        }
        i += 1;
    }
    let end: usize = if n > start && input.get_char(n - 1) == '\r' {
        n - 1
    } else {
        n
    };
    let line = input.substring_char(start, end);
    let ghost piece = input@.skip(start as int);
    proof {
        lemma_first_nl_none_from(input@, start as int);
        assert(raw_lines(input@.skip(start as int)) == seq![piece]);
        if n > start && input@[n - 1] == '\r' {
            assert(piece.last() == '\r');
            assert(strip_cr(piece) =~= line@);
        } else {
            assert(strip_cr(piece) =~= line@);
        }
    }
    match statement(line) {
        Ok(stmt) => {
            lines.push(stmt);
            proof {
                done = done + seq![piece];
                assert(raw_lines(input@) =~= done);
                let c = Code { lines };
                assert forall|j: int| 0 <= j < lines_of(input@).len() implies (
                #[trigger] stmt_of_line(lines_of(input@)[j])) is Some by {
                    assert(lines_of(input@)[j] == strip_cr(done[j]));
                }
                assert(lines.deep_view() =~= parsed_stmts(input@));
            }
            Ok(Code { lines })
        },
        Err(e) => {
            proof {
                let k = done.len() as int;
                assert(raw_lines(input@)[k] == piece);
                assert(lines_of(input@)[k] == strip_cr(piece));
                assert forall|j: int| 0 <= j < k implies (#[trigger] stmt_of_line(
                    lines_of(input@)[j],
                )) is Some by {
                    assert(raw_lines(input@)[j] == done[j]);
                }
                assert(first_bad_line(input@, k, e.details@));
                assert(!parse_ok(input@));
            }
            Err(e)
        },
    }
}

} // verus!
