//! The assembler: lowers a parsed program into a flat instruction array.
//!
//! One linear pass emits code, records each label's address, allocates
//! variable slots in first-use order, and keeps a pending reference for
//! every jump or call target, emitted as a `Push(0)` placeholder.  A second
//! pass over the pending references overwrites each placeholder with the
//! address its label resolved to; a label that never resolves fails the
//! whole assembly.
//!
//! The specification mirrors that design: `emit_ph` is the emitted code
//! with placeholders, `refs_of` the pending-reference list, `labels_of` the
//! final label table, and `assemble_spec` the patched result the assembler
//! is proved to return.

use crate::parser::{
    Assignment, Code, LabeledStatement, LoadOrStore, Statement, StmtV, VarAccess, VarExprV,
    VariableExpr,
};
use crate::types::{ErrorKind, ExecError, Instruction};
use vstd::prelude::*;

verus! {

// ---------------------------------------------------------------------------
// Addresses and tables
// ---------------------------------------------------------------------------
/// How many machine instructions a statement lowers to.
pub open spec fn emit_len(s: StmtV) -> int {
    match s {
        StmtV::LabeledStatement(_) => 1,
        StmtV::Goto(_) => 2,
        StmtV::GotoEqual(_) => 2,
        StmtV::Call(_) => 4,
        StmtV::VarExpr(v) => match v {
            VarExprV::Assignment(_) => 3,
            VarExprV::Access(a) => if a.name is Some {
                2
            } else {
                1
            },
        },
        StmtV::Ins(_) => 1,
        StmtV::Comment(_) => 0,
    }
}

/// The instruction address at which statement `i` starts.
pub open spec fn base_addr(prog: Seq<StmtV>, i: int) -> int
    decreases i,
{
    if i <= 0 {
        0
    } else {
        base_addr(prog, i - 1) + emit_len(prog[i - 1])
    }
}

/// The label table after the first `i` statements; a redefined label keeps
/// its last definition.
pub open spec fn labels_of_prefix(prog: Seq<StmtV>, i: int) -> Map<Seq<char>, int>
    decreases i,
{
    if i <= 0 {
        Map::empty()
    } else {
        let m = labels_of_prefix(prog, i - 1);
        match prog[i - 1] {
            StmtV::LabeledStatement(l) => m.insert(l.label, base_addr(prog, i - 1)),
            _ => m,
        }
    }
}

/// The full label table of the program.
pub open spec fn labels_of(prog: Seq<StmtV>) -> Map<Seq<char>, int> {
    labels_of_prefix(prog, prog.len() as int)
}

/// How many distinct variables the first `i` statements assign.
pub open spec fn nvars_of_prefix(prog: Seq<StmtV>, i: int) -> int
    decreases i, 1int,
{
    if i <= 0 {
        0
    } else {
        let n = nvars_of_prefix(prog, i - 1);
        match prog[i - 1] {
            StmtV::VarExpr(VarExprV::Assignment(a)) => if vars_of_prefix(
                prog,
                i - 1,
            ).contains_key(a.name) {
                n
            } else {
                n + 1
            },
            _ => n,
        }
    }
}

/// The variable table after the first `i` statements: each first-assigned
/// name gets the next slot, starting at slot 1.
pub open spec fn vars_of_prefix(prog: Seq<StmtV>, i: int) -> Map<Seq<char>, int>
    decreases i, 0int,
{
    if i <= 0 {
        Map::empty()
    } else {
        let m = vars_of_prefix(prog, i - 1);
        match prog[i - 1] {
            StmtV::VarExpr(VarExprV::Assignment(a)) => if m.contains_key(a.name) {
                m
            } else {
                m.insert(a.name, nvars_of_prefix(prog, i - 1) + 1)
            },
            _ => m,
        }
    }
}

/// The label a jump or call statement refers to, if it is one.
pub open spec fn stmt_ref_label(s: StmtV) -> Option<Seq<char>> {
    match s {
        StmtV::Goto(l) => Some(l),
        StmtV::GotoEqual(l) => Some(l),
        StmtV::Call(l) => Some(l),
        _ => None,
    }
}

/// Every referenced label is defined somewhere in the program.
pub open spec fn labels_ok(prog: Seq<StmtV>) -> bool {
    forall|i: int|
        0 <= i < prog.len() ==> match stmt_ref_label(#[trigger] prog[i]) {
            Some(l) => labels_of(prog).contains_key(l),
            None => true,
        }
}

/// Statement `i` does not read or write a variable that has no slot yet.
pub open spec fn stmt_var_ok(prog: Seq<StmtV>, i: int) -> bool {
    match prog[i] {
        StmtV::VarExpr(VarExprV::Access(a)) => match a.name {
            Some(nm) => vars_of_prefix(prog, i).contains_key(nm),
            None => true,
        },
        _ => true,
    }
}

/// No named access comes before its variable's first assignment.
pub open spec fn vars_ok(prog: Seq<StmtV>) -> bool {
    forall|i: int| 0 <= i < prog.len() ==> stmt_var_ok(prog, i)
}

// ---------------------------------------------------------------------------
// Emitted code
// ---------------------------------------------------------------------------
/// What statement `i` assembles to, with jump and call targets resolved.
/// A call clears the callee's view of the stack, pushes the return address
/// (the call expands to exactly 4 instructions), pushes the target and
/// jumps.
pub open spec fn emit_stmt(prog: Seq<StmtV>, i: int) -> Seq<Instruction> {
    let base = base_addr(prog, i);
    let labels = labels_of(prog);
    match prog[i] {
        StmtV::LabeledStatement(l) => seq![l.ins],
        StmtV::Goto(l) => seq![Instruction::Push(labels[l] as i64), Instruction::Goto],
        StmtV::GotoEqual(l) => seq![
            Instruction::Push(labels[l] as i64),
            Instruction::GotoIfEqual,
        ],
        StmtV::Call(l) => seq![
            Instruction::ClearStack,
            Instruction::Push((base + 4) as i64),
            Instruction::Push(labels[l] as i64),
            Instruction::Goto,
        ],
        StmtV::VarExpr(VarExprV::Assignment(a)) => seq![
            Instruction::Push(a.value),
            Instruction::Push(vars_of_prefix(prog, i + 1)[a.name] as i64),
            Instruction::Store,
        ],
        StmtV::VarExpr(VarExprV::Access(acc)) => match acc.name {
            None => seq![acc.load_or_store.ins()],
            Some(nm) => seq![
                Instruction::Push(vars_of_prefix(prog, i)[nm] as i64),
                acc.load_or_store.ins(),
            ],
        },
        StmtV::Ins(op) => seq![op],
        StmtV::Comment(_) => seq![],
    }
}

/// The same statement as first emitted, with a `Push(0)` placeholder where
/// a label address belongs.
pub open spec fn emit_ph_stmt(prog: Seq<StmtV>, i: int) -> Seq<Instruction> {
    let base = base_addr(prog, i);
    match prog[i] {
        StmtV::Goto(_) => seq![Instruction::Push(0i64), Instruction::Goto],
        StmtV::GotoEqual(_) => seq![Instruction::Push(0i64), Instruction::GotoIfEqual],
        StmtV::Call(_) => seq![
            Instruction::ClearStack,
            Instruction::Push((base + 4) as i64),
            Instruction::Push(0i64),
            Instruction::Goto,
        ],
        _ => emit_stmt(prog, i),
    }
}

/// The fully resolved code of the first `i` statements.
pub open spec fn assemble_spec(prog: Seq<StmtV>, i: int) -> Seq<Instruction>
    decreases i,
{
    if i <= 0 {
        Seq::empty()
    } else {
        assemble_spec(prog, i - 1) + emit_stmt(prog, i - 1)
    }
}

/// The first-pass code of the first `i` statements, placeholders included.
pub open spec fn emit_ph(prog: Seq<StmtV>, i: int) -> Seq<Instruction>
    decreases i,
{
    if i <= 0 {
        Seq::empty()
    } else {
        emit_ph(prog, i - 1) + emit_ph_stmt(prog, i - 1)
    }
}

/// The pending references of statement `i`: its label and the index of its
/// placeholder.
pub open spec fn refs_of_stmt(prog: Seq<StmtV>, i: int) -> Seq<(Seq<char>, int)> {
    let base = base_addr(prog, i);
    match prog[i] {
        StmtV::Goto(l) => seq![(l, base)],
        StmtV::GotoEqual(l) => seq![(l, base)],
        StmtV::Call(l) => seq![(l, base + 2)],
        _ => seq![],
    }
}

/// The pending references of the first `i` statements, in statement order.
pub open spec fn refs_of(prog: Seq<StmtV>, i: int) -> Seq<(Seq<char>, int)>
    decreases i,
{
    if i <= 0 {
        Seq::empty()
    } else {
        refs_of(prog, i - 1) + refs_of_stmt(prog, i - 1)
    }
}

/// `out` with the placeholders of `refs` overwritten by their labels'
/// addresses.
pub open spec fn patch_seq(
    out: Seq<Instruction>,
    refs: Seq<(Seq<char>, int)>,
    labels: Map<Seq<char>, int>,
) -> Seq<Instruction>
    decreases refs.len(),
{
    if refs.len() == 0 {
        out
    } else {
        patch_seq(out, refs.drop_last(), labels).update(
            refs.last().1,
            Instruction::Push(labels[refs.last().0] as i64),
        )
    }
}

// ---------------------------------------------------------------------------
// Facts about the emitted code and the reference list
// ---------------------------------------------------------------------------
/// A statement's address equals the length of everything emitted before it,
/// placeholders or not.
pub proof fn lemma_emit_lens(prog: Seq<StmtV>, i: int)
    requires
        0 <= i <= prog.len(),
    ensures
        assemble_spec(prog, i).len() == base_addr(prog, i),
        emit_ph(prog, i).len() == base_addr(prog, i),
    decreases i,
{
    if i > 0 {
        lemma_emit_lens(prog, i - 1);
    }
}

/// Every pending reference of the first `m` statements points strictly
/// inside the code those statements emitted, and comes from a jump or call
/// statement among them; conversely every jump or call among them left a
/// reference.
pub proof fn lemma_refs_props(prog: Seq<StmtV>, m: int)
    requires
        0 <= m <= prog.len(),
    ensures
        forall|j: int|
            0 <= j < refs_of(prog, m).len() ==> 0 <= (#[trigger] refs_of(prog, m)[j]).1
                < base_addr(prog, m),
        forall|j: int|
            0 <= j < refs_of(prog, m).len() ==> exists|t: int|
                0 <= t < m && stmt_ref_label(prog[t]) == Some((#[trigger] refs_of(prog, m)[j]).0),
        forall|t: int|
            0 <= t < m && stmt_ref_label(#[trigger] prog[t]) is Some ==> exists|j: int|
                0 <= j < refs_of(prog, m).len() && (#[trigger] refs_of(prog, m)[j]).0
                    == stmt_ref_label(prog[t])->0,
    decreases m,
{
    if m > 0 {
        lemma_refs_props(prog, m - 1);
        lemma_emit_lens(prog, m - 1);
        let r = refs_of(prog, m);
        let rp = refs_of(prog, m - 1);
        assert forall|j: int| 0 <= j < r.len() implies 0 <= (#[trigger] r[j]).1 < base_addr(
            prog,
            m,
        ) by {
            if j < rp.len() {
                assert(r[j] == rp[j]);
            } else {
                assert(r[j] == refs_of_stmt(prog, m - 1)[j - rp.len()]);
            }
        }
        assert forall|j: int| 0 <= j < r.len() implies exists|t: int|
            0 <= t < m && stmt_ref_label(prog[t]) == Some((#[trigger] r[j]).0) by {
            if j < rp.len() {
                assert(r[j] == rp[j]);
            } else {
                assert(r[j] == refs_of_stmt(prog, m - 1)[j - rp.len()]);
                assert(stmt_ref_label(prog[m - 1]) == Some(r[j].0));
            }
        }
        assert forall|t: int| 0 <= t < m && stmt_ref_label(#[trigger] prog[t]) is Some implies
            exists|j: int|
                0 <= j < r.len() && (#[trigger] r[j]).0 == stmt_ref_label(prog[t])->0 by {
            if t < m - 1 {
                let j = choose|j: int|
                    0 <= j < rp.len() && (#[trigger] rp[j]).0 == stmt_ref_label(prog[t])->0;
                assert(r[j] == rp[j]);
            } else {
                let j = rp.len() as int;
                assert(r[j] == refs_of_stmt(prog, m - 1)[0]);
                assert(r[j].0 == stmt_ref_label(prog[t])->0);
            }
        }
    }
}

/// Patching never changes the length of the code.
pub proof fn lemma_patch_len(
    out: Seq<Instruction>,
    refs: Seq<(Seq<char>, int)>,
    labels: Map<Seq<char>, int>,
)
    requires
        forall|j: int| 0 <= j < refs.len() ==> 0 <= (#[trigger] refs[j]).1 < out.len(),
    ensures
        patch_seq(out, refs, labels).len() == out.len(),
    decreases refs.len(),
{
    if refs.len() > 0 {
        assert forall|j: int| 0 <= j < refs.drop_last().len() implies 0 <= (#[trigger] refs.drop_last()[j]).1 < out.len() by {
            assert(refs.drop_last()[j] == refs[j]);
        }
        lemma_patch_len(out, refs.drop_last(), labels);
    }
}

/// Patching references that all lie inside a prefix leaves a suffix alone.
#[verifier::rlimit(100)]
pub proof fn lemma_patch_prefix(
    a: Seq<Instruction>,
    b: Seq<Instruction>,
    refs: Seq<(Seq<char>, int)>,
    labels: Map<Seq<char>, int>,
)
    requires
        forall|j: int| 0 <= j < refs.len() ==> 0 <= (#[trigger] refs[j]).1 < a.len(),
    ensures
        patch_seq(a + b, refs, labels) == patch_seq(a, refs, labels) + b,
    decreases refs.len(),
{
    if refs.len() > 0 {
        assert forall|j: int| 0 <= j < refs.drop_last().len() implies 0 <= (#[trigger] refs.drop_last()[j]).1 < a.len() by {
            assert(refs.drop_last()[j] == refs[j]);
        }
        lemma_patch_prefix(a, b, refs.drop_last(), labels);
        lemma_patch_len(a, refs.drop_last(), labels);
        let r = refs.last();
        assert((patch_seq(a, refs.drop_last(), labels) + b).update(
            r.1,
            Instruction::Push(labels[r.0] as i64),
        ) =~= patch_seq(a, refs.drop_last(), labels).update(
            r.1,
            Instruction::Push(labels[r.0] as i64),
        ) + b);
    }
}

/// Updating a slot inside the appended segment leaves the prefix alone.
proof fn lemma_patch_one(x: Seq<Instruction>, ph: Seq<Instruction>, p: int, v: Instruction)
    requires
        0 <= p < ph.len(),
    ensures
        (x + ph).update(x.len() + p, v) == x + ph.update(p, v),
{
    assert((x + ph).update(x.len() + p, v) =~= x + ph.update(p, v));
}

/// Patching the placeholders of the first `m` statements turns the
/// first-pass code into the fully resolved code.
#[verifier::rlimit(100)]
#[verifier::spinoff_prover]
pub proof fn lemma_assemble(prog: Seq<StmtV>, m: int)
    requires
        0 <= m <= prog.len(),
    ensures
        patch_seq(emit_ph(prog, m), refs_of(prog, m), labels_of(prog)) == assemble_spec(prog, m),
    decreases m,
{
    if m > 0 {
        lemma_assemble(prog, m - 1);
        lemma_refs_props(prog, m - 1);
        lemma_emit_lens(prog, m - 1);
        let labels = labels_of(prog);
        let a = emit_ph(prog, m - 1);
        let ph = emit_ph_stmt(prog, m - 1);
        let rp = refs_of(prog, m - 1);
        let rs = refs_of_stmt(prog, m - 1);
        let base = base_addr(prog, m - 1);
        if rs.len() == 0 {
            assert(rp + rs =~= rp);
            lemma_patch_prefix(a, ph, rp, labels);
            assert(ph == emit_stmt(prog, m - 1));
        } else {
            let r = rs[0];
            let off = r.1 - base;
            assert((rp + rs).drop_last() =~= rp);
            assert((rp + rs).last() == r);
            lemma_patch_prefix(a, ph, rp, labels);
            assert(patch_seq(emit_ph(prog, m), rp + rs, labels) == (assemble_spec(prog, m - 1)
                + ph).update(base + off, Instruction::Push(labels[r.0] as i64)));
            lemma_patch_one(
                assemble_spec(prog, m - 1),
                ph,
                off,
                Instruction::Push(labels[r.0] as i64),
            );
            assert(ph.update(off, Instruction::Push(labels[r.0] as i64)) =~= emit_stmt(
                prog,
                m - 1,
            ));
        }
    }
}

// ---------------------------------------------------------------------------
// Association tables
// ---------------------------------------------------------------------------
/// The map an association vector denotes; a key pushed twice keeps its
/// later value.
pub open spec fn assoc_view(v: Seq<(String, usize)>) -> Map<Seq<char>, int>
    decreases v.len(),
{
    if v.len() == 0 {
        Map::empty()
    } else {
        assoc_view(v.drop_last()).insert(v.last().0@, v.last().1 as int)
    }
}

/// Every value in the table is at most `bound`.
pub open spec fn assoc_bounded(v: Seq<(String, usize)>, bound: int) -> bool {
    forall|j: int| 0 <= j < v.len() ==> (#[trigger] v[j]).1 <= bound
}

/// Looks a key up, finding the value it was most recently pushed with.
fn assoc_lookup(v: &Vec<(String, usize)>, key: &String) -> (r: Option<usize>)
    ensures
        match r {
            Some(x) => {
                &&& assoc_view(v@).contains_key(key@)
                &&& assoc_view(v@)[key@] == x
                &&& exists|j: int| 0 <= j < v@.len() && (#[trigger] v@[j]).1 == x
            },
            None => !assoc_view(v@).contains_key(key@),
        },
{
    let mut i: usize = v.len();
    proof {
        assert(v@.take(i as int) =~= v@);
    }
    while i > 0
        invariant
            i <= v@.len(),
            assoc_view(v@).contains_key(key@) == assoc_view(v@.take(i as int)).contains_key(key@),
            assoc_view(v@).contains_key(key@) ==> assoc_view(v@)[key@] == assoc_view(
                v@.take(i as int),
            )[key@],
        decreases i,
    {
        i = i - 1;
        proof {
            assert(v@.take(i + 1).drop_last() =~= v@.take(i as int));
            assert(v@.take(i + 1).last() == v@[i as int]);
        }
        if v[i].0 == *key {
            return Some(v[i].1);
        }
    }
    proof {
        assert(v@.take(0) =~= Seq::<(String, usize)>::empty());
    }
    None
}

/// The executable reference list carries the same labels and positions as
/// the specification's.
pub open spec fn refs_match(v: Seq<(String, usize)>, r: Seq<(Seq<char>, int)>) -> bool {
    &&& v.len() == r.len()
    &&& forall|j: int|
        0 <= j < v.len() ==> (#[trigger] v[j]).0@ == r[j].0 && v[j].1 as int == r[j].1
}

/// The assembler's working state: the label table, the pending references,
/// the code emitted so far, and the variable table with its allocation
/// counter.
pub struct CodeGen {
    labels: Vec<(String, usize)>,
    label_refs: Vec<(String, usize)>,
    labels_resolved: Vec<Instruction>,
    curr_base_idx: usize,
    variable_names: Vec<(String, usize)>,
    curr_variable_allocation_idx: usize,
}

impl CodeGen {
    /// An assembler that has seen no statements yet.
    pub closed spec fn is_fresh(&self) -> bool {
        &&& self.labels@.len() == 0
        &&& self.label_refs@.len() == 0
        &&& self.labels_resolved@.len() == 0
        &&& self.curr_base_idx == 0
        &&& self.variable_names@.len() == 0
        &&& self.curr_variable_allocation_idx == 0
    }

    pub fn new() -> (r: Self)
        ensures
            r.is_fresh(),
    {
        CodeGen {
            label_refs: vec![],
            labels: Vec::new(),
            labels_resolved: vec![],
            variable_names: Vec::new(),
            curr_variable_allocation_idx: 0,
            curr_base_idx: 0,
        }
    }

    /// Everything the first pass guarantees after lowering `i` statements.
    spec fn pass1_inv(&self, prog: Seq<StmtV>, i: int) -> bool {
        &&& self.labels_resolved@ == emit_ph(prog, i)
        &&& self.labels_resolved@.len() == base_addr(prog, i)
        &&& self.labels_resolved@.len() <= 4 * i
        &&& assoc_view(self.labels@) == labels_of_prefix(prog, i)
        &&& assoc_bounded(self.labels@, self.labels_resolved@.len() as int)
        &&& refs_match(self.label_refs@, refs_of(prog, i))
        &&& forall|j: int|
            0 <= j < self.label_refs@.len() ==> (#[trigger] self.label_refs@[j]).1
                < self.labels_resolved@.len()
        &&& assoc_view(self.variable_names@) == vars_of_prefix(prog, i)
        &&& self.curr_variable_allocation_idx as int == nvars_of_prefix(prog, i)
        &&& self.curr_variable_allocation_idx as int <= i
        &&& assoc_bounded(self.variable_names@, self.curr_variable_allocation_idx as int)
    }

    /// Lowers `var name = value`: allocates the next slot on a first
    /// assignment, then emits the push-push-store triple.
    fn lower_assignment(&mut self, assignment: &Assignment)
        requires
            old(self).curr_variable_allocation_idx < usize::MAX,
            old(self).curr_variable_allocation_idx + 1 <= i64::MAX,
            assoc_bounded(
                old(self).variable_names@,
                old(self).curr_variable_allocation_idx as int,
            ),
        ensures
            final(self).labels@ == old(self).labels@,
            final(self).label_refs@ == old(self).label_refs@,
            final(self).curr_base_idx == old(self).curr_base_idx,
            final(self).curr_variable_allocation_idx >= old(self).curr_variable_allocation_idx,
            assoc_bounded(
                final(self).variable_names@,
                final(self).curr_variable_allocation_idx as int,
            ),
            ({
                let m = assoc_view(old(self).variable_names@);
                let n = old(self).curr_variable_allocation_idx as int;
                if m.contains_key(assignment.name@) {
                    &&& final(self).variable_names@ == old(self).variable_names@
                    &&& final(self).curr_variable_allocation_idx as int == n
                    &&& final(self).labels_resolved@ == old(self).labels_resolved@ + seq![
                        Instruction::Push(assignment.value),
                        Instruction::Push(m[assignment.name@] as i64),
                        Instruction::Store,
                    ]
                } else {
                    &&& assoc_view(final(self).variable_names@) == m.insert(
                        assignment.name@,
                        n + 1,
                    )
                    &&& final(self).curr_variable_allocation_idx as int == n + 1
                    &&& final(self).labels_resolved@ == old(self).labels_resolved@ + seq![
                        Instruction::Push(assignment.value),
                        Instruction::Push((n + 1) as i64),
                        Instruction::Store,
                    ]
                }
            }),
    {
        match assoc_lookup(&self.variable_names, &assignment.name) {
            Some(addr) => {
                self.labels_resolved.push(Instruction::Push(assignment.value));
                self.labels_resolved.push(Instruction::Push(addr as i64));
                self.labels_resolved.push(Instruction::Store);
                proof {
                    assert(self.labels_resolved@ =~= old(self).labels_resolved@ + seq![
                        Instruction::Push(assignment.value),
                        Instruction::Push(
                            assoc_view(old(self).variable_names@)[assignment.name@] as i64,
                        ),
                        Instruction::Store,
                    ]);
                }
            },
            None => {
                self.curr_variable_allocation_idx = self.curr_variable_allocation_idx + 1;
                let addr = self.curr_variable_allocation_idx;
                self.variable_names.push((assignment.name.clone(), addr));
                self.labels_resolved.push(Instruction::Push(assignment.value));
                self.labels_resolved.push(Instruction::Push(addr as i64));
                self.labels_resolved.push(Instruction::Store);
                proof {
                    assert(self.variable_names@.drop_last() =~= old(self).variable_names@);
                    assert(self.labels_resolved@ =~= old(self).labels_resolved@ + seq![
                        Instruction::Push(assignment.value),
                        Instruction::Push(addr as i64),
                        Instruction::Store,
                    ]);
                }
            },
        }
    }

    /// Lowers `load`/`store`: a bare access is the lone opcode; a named
    /// access pushes the variable's slot first and fails when the name was
    /// never assigned.
    fn lower_access(&mut self, access: &VarAccess) -> (r: Result<(), ExecError>)
        requires
            old(self).curr_variable_allocation_idx as int <= i64::MAX,
            assoc_bounded(
                old(self).variable_names@,
                old(self).curr_variable_allocation_idx as int,
            ),
        ensures
            final(self).labels@ == old(self).labels@,
            final(self).label_refs@ == old(self).label_refs@,
            final(self).curr_base_idx == old(self).curr_base_idx,
            final(self).variable_names@ == old(self).variable_names@,
            final(self).curr_variable_allocation_idx == old(self).curr_variable_allocation_idx,
            ({
                let m = assoc_view(old(self).variable_names@);
                match r {
                    Ok(_) => match access.name {
                        None => final(self).labels_resolved@ == old(self).labels_resolved@
                            + seq![access.load_or_store.ins()],
                        Some(nm) => m.contains_key(nm@) && final(self).labels_resolved@ == old(
                            self,
                        ).labels_resolved@ + seq![
                            Instruction::Push(m[nm@] as i64),
                            access.load_or_store.ins(),
                        ],
                    },
                    Err(e) => match access.name {
                        None => false,
                        Some(nm) => {
                            &&& !m.contains_key(nm@)
                            &&& e.kind == ErrorKind::UndefinedVariable
                            &&& e.details@ == nm@
                            &&& final(self).labels_resolved@ == old(self).labels_resolved@
                        },
                    },
                }
            }),
    {
        match &access.name {
            None => {
                self.labels_resolved.push(access.load_or_store.get_value());
                proof {
                    assert(self.labels_resolved@ =~= old(self).labels_resolved@ + seq![
                        access.load_or_store.ins(),
                    ]);
                }
                Ok(())
            },
            Some(name) => {
                match assoc_lookup(&self.variable_names, name) {
                    Some(addr) => {
                        self.labels_resolved.push(Instruction::Push(addr as i64));
                        self.labels_resolved.push(access.load_or_store.get_value());
                        proof {
                            assert(self.labels_resolved@ =~= old(self).labels_resolved@ + seq![
                                Instruction::Push(
                                    assoc_view(old(self).variable_names@)[name@] as i64,
                                ),
                                access.load_or_store.ins(),
                            ]);
                        }
                        Ok(())
                    },
                    None => Err(ExecError::new(ErrorKind::UndefinedVariable, name.as_str())),
                }
            },
        }
    }

    /// Lowers either variable statement form.
    fn lower_var_expr(&mut self, var_expr: &VariableExpr) -> (r: Result<(), ExecError>)
        requires
            old(self).curr_variable_allocation_idx < usize::MAX,
            old(self).curr_variable_allocation_idx + 1 <= i64::MAX,
            assoc_bounded(
                old(self).variable_names@,
                old(self).curr_variable_allocation_idx as int,
            ),
        ensures
            final(self).labels@ == old(self).labels@,
            final(self).label_refs@ == old(self).label_refs@,
            final(self).curr_base_idx == old(self).curr_base_idx,
            final(self).curr_variable_allocation_idx >= old(self).curr_variable_allocation_idx,
            assoc_bounded(
                final(self).variable_names@,
                final(self).curr_variable_allocation_idx as int,
            ),
            ({
                let m = assoc_view(old(self).variable_names@);
                let n = old(self).curr_variable_allocation_idx as int;
                match var_expr {
                    VariableExpr::Assignment(a) => r is Ok && if m.contains_key(a.name@) {
                        &&& final(self).variable_names@ == old(self).variable_names@
                        &&& final(self).curr_variable_allocation_idx as int == n
                        &&& final(self).labels_resolved@ == old(self).labels_resolved@ + seq![
                            Instruction::Push(a.value),
                            Instruction::Push(m[a.name@] as i64),
                            Instruction::Store,
                        ]
                    } else {
                        &&& assoc_view(final(self).variable_names@) == m.insert(a.name@, n + 1)
                        &&& final(self).curr_variable_allocation_idx as int == n + 1
                        &&& final(self).labels_resolved@ == old(self).labels_resolved@ + seq![
                            Instruction::Push(a.value),
                            Instruction::Push((n + 1) as i64),
                            Instruction::Store,
                        ]
                    },
                    VariableExpr::Access(acc) => final(self).variable_names@ == old(
                        self,
                    ).variable_names@ && final(self).curr_variable_allocation_idx as int == n
                        && match r {
                        Ok(_) => match acc.name {
                            None => final(self).labels_resolved@ == old(self).labels_resolved@
                                + seq![acc.load_or_store.ins()],
                            Some(nm) => m.contains_key(nm@) && final(self).labels_resolved@ == old(
                                self,
                            ).labels_resolved@ + seq![
                                Instruction::Push(m[nm@] as i64),
                                acc.load_or_store.ins(),
                            ],
                        },
                        Err(e) => match acc.name {
                            None => false,
                            Some(nm) => {
                                &&& !m.contains_key(nm@)
                                &&& e.kind == ErrorKind::UndefinedVariable
                                &&& e.details@ == nm@
                                &&& final(self).labels_resolved@ == old(self).labels_resolved@
                            },
                        },
                    },
                }
            }),
    {
        match var_expr {
            VariableExpr::Assignment(assignment_expr) => {
                self.lower_assignment(assignment_expr);
                Ok(())
            },
            VariableExpr::Access(access_expr) => self.lower_access(access_expr),
        }
    }

    /// Lowers one statement, carrying the first pass from `i` to `i + 1`
    /// statements.
    #[verifier::rlimit(100)]
    #[verifier::spinoff_prover]
    fn lower_stmt(
        &mut self,
        stmt: &Statement,
        Ghost(prog): Ghost<Seq<StmtV>>,
        Ghost(i): Ghost<int>,
    ) -> (r: Result<(), ExecError>)
        requires
            old(self).pass1_inv(prog, i),
            0 <= i < prog.len(),
            i < usize::MAX,
            stmt.deep_view() == prog[i],
            4 * prog.len() + 4 <= i64::MAX,
        ensures
            match r {
                Ok(_) => final(self).pass1_inv(prog, i + 1) && stmt_var_ok(prog, i),
                Err(e) => {
                    &&& !stmt_var_ok(prog, i)
                    &&& e.kind == ErrorKind::UndefinedVariable
                    &&& match prog[i] {
                        StmtV::VarExpr(VarExprV::Access(acc)) => acc.name == Some(e.details@),
                        _ => false,
                    }
                },
            },
    {
        self.curr_base_idx = self.labels_resolved.len();
        let ghost labs0 = self.labels@;
        let ghost refs0 = self.label_refs@;
        let ghost lr0 = self.labels_resolved@;
        match stmt {
            Statement::LabeledStatement(ls) => {
                self.labels.push((ls.label.clone(), self.curr_base_idx));
                self.labels_resolved.push(ls.ins);
                proof {
                    assert(self.labels@.drop_last() =~= labs0);
                    assert(self.labels_resolved@ =~= lr0 + emit_ph_stmt(prog, i));
                    assert(refs_of(prog, i + 1) =~= refs_of(prog, i));
                }
            },
            Statement::Goto(l) => {
                let pos = self.labels_resolved.len();
                self.label_refs.push((l.clone(), pos));
                self.labels_resolved.push(Instruction::Push(0));
                self.labels_resolved.push(Instruction::Goto);
                proof {
                    assert(self.label_refs@.drop_last() =~= refs0);
                    assert(self.labels_resolved@ =~= lr0 + emit_ph_stmt(prog, i));
                    assert(refs_of(prog, i + 1) =~= refs_of(prog, i) + refs_of_stmt(prog, i));
                }
            },
            Statement::GotoEqual(l) => {
                let pos = self.labels_resolved.len();
                self.label_refs.push((l.clone(), pos));
                self.labels_resolved.push(Instruction::Push(0));
                self.labels_resolved.push(Instruction::GotoIfEqual);
                proof {
                    assert(self.label_refs@.drop_last() =~= refs0);
                    assert(self.labels_resolved@ =~= lr0 + emit_ph_stmt(prog, i));
                    assert(refs_of(prog, i + 1) =~= refs_of(prog, i) + refs_of_stmt(prog, i));
                }
            },
            Statement::Call(l) => {
                let ret = self.labels_resolved.len() as u64 + 4;
                self.labels_resolved.push(Instruction::ClearStack);
                self.labels_resolved.push(Instruction::Push(ret as i64));
                let pos = self.labels_resolved.len();
                self.label_refs.push((l.clone(), pos));
                self.labels_resolved.push(Instruction::Push(0));
                self.labels_resolved.push(Instruction::Goto);
                proof {
                    assert(self.label_refs@.drop_last() =~= refs0);
                    assert(self.labels_resolved@ =~= lr0 + emit_ph_stmt(prog, i));
                    assert(refs_of(prog, i + 1) =~= refs_of(prog, i) + refs_of_stmt(prog, i));
                }
            },
            Statement::VarExpr(var_expr) => {
                let r = self.lower_var_expr(var_expr);
                match r {
                    Ok(_) => {
                        proof {
                            assert(self.labels_resolved@ =~= lr0 + emit_ph_stmt(prog, i));
                            assert(refs_of(prog, i + 1) =~= refs_of(prog, i));
                        }
                    },
                    Err(e) => {
                        return Err(e);
                    },
                }
            },
            Statement::Ins(instruction) => {
                self.labels_resolved.push(*instruction);
                proof {
                    assert(self.labels_resolved@ =~= lr0 + emit_ph_stmt(prog, i));
                    assert(refs_of(prog, i + 1) =~= refs_of(prog, i));
                }
            },
            Statement::Comment(_) => {
                proof {
                    assert(self.labels_resolved@ =~= lr0 + emit_ph_stmt(prog, i));
                    assert(refs_of(prog, i + 1) =~= refs_of(prog, i));
                }
            },
        }
        Ok(())
    }

    /// Assembles a parsed program into its flat instruction array.
    ///
    /// Succeeds exactly when every named access comes after its variable's
    /// first assignment and every jump or call target is defined; the
    /// output is then precisely `assemble_spec` of the program.  On failure
    /// the error names an offending variable or label and nothing is
    /// returned: assembly is all-or-nothing.
    #[allow(non_snake_case)]
    #[verifier::rlimit(100)]
    #[verifier::spinoff_prover]
    pub fn lower_IR(&mut self, input: &Code) -> (r: Result<Vec<Instruction>, ExecError>)
        requires
            old(self).is_fresh(),
            4 * input.deep_view().len() + 4 <= i64::MAX,
        ensures
            ({
                let prog = input.deep_view();
                &&& (r is Ok <==> vars_ok(prog) && labels_ok(prog))
                &&& match r {
                    Ok(out) => out@ == assemble_spec(prog, prog.len() as int),
                    Err(e) => if !vars_ok(prog) {
                        &&& e.kind == ErrorKind::UndefinedVariable
                        &&& exists|i: int|
                            0 <= i < prog.len() && match #[trigger] prog[i] {
                                StmtV::VarExpr(VarExprV::Access(acc)) => acc.name == Some(
                                    e.details@,
                                ) && !vars_of_prefix(prog, i).contains_key(e.details@),
                                _ => false,
                            }
                    } else {
                        &&& e.kind == ErrorKind::UnresolvedLabel
                        &&& exists|i: int|
                            0 <= i < prog.len() && stmt_ref_label(#[trigger] prog[i]) == Some(
                                e.details@,
                            ) && !labels_of(prog).contains_key(e.details@)
                    },
                }
            }),
    {
        let ghost prog = input.deep_view();
        let n_stmts = input.lines.len();
        let mut idx: usize = 0;
        proof {
            assert(self.labels_resolved@ =~= emit_ph(prog, 0));
            assert(assoc_view(self.labels@) =~= labels_of_prefix(prog, 0));
            assert(assoc_view(self.variable_names@) =~= vars_of_prefix(prog, 0));
            assert(refs_of(prog, 0) =~= Seq::<(Seq<char>, int)>::empty());
        }
        while idx < n_stmts
            invariant
                prog == input.deep_view(),
                n_stmts == input.lines@.len(),
                prog.len() == n_stmts,
                idx <= n_stmts,
                4 * prog.len() + 4 <= i64::MAX,
                self.pass1_inv(prog, idx as int),
                forall|j: int| 0 <= j < idx ==> stmt_var_ok(prog, j),
            decreases n_stmts - idx,
        {
            let stmt = &input.lines[idx];
            proof {
                assert(stmt.deep_view() == prog[idx as int]);
            }
            match self.lower_stmt(stmt, Ghost(prog), Ghost(idx as int)) {
                Ok(_) => {},
                Err(e) => {
                    proof {
                        assert(!stmt_var_ok(prog, idx as int));
                        assert(!vars_ok(prog));
                    }
                    return Err(e);
                },
            }
            idx += 1;
        }
        // Second pass: resolve every pending reference in the label table.
        let total = self.labels_resolved.len();
        let ghost full_refs = refs_of(prog, prog.len() as int);
        let nrefs = self.label_refs.len();
        let mut j: usize = 0;
        proof {
            assert(full_refs.take(0) =~= Seq::<(Seq<char>, int)>::empty());
            assert(vars_ok(prog));
        }
        while j < nrefs
            invariant
                prog == input.deep_view(),
                4 * prog.len() + 4 <= i64::MAX,
                j <= nrefs,
                nrefs == self.label_refs@.len(),
                full_refs == refs_of(prog, prog.len() as int),
                refs_match(self.label_refs@, full_refs),
                assoc_view(self.labels@) == labels_of(prog),
                assoc_bounded(self.labels@, total as int),
                total as int <= 4 * prog.len(),
                forall|jj: int|
                    0 <= jj < self.label_refs@.len() ==> (#[trigger] self.label_refs@[jj]).1
                        < total,
                self.labels_resolved@.len() == total,
                self.labels_resolved@ == patch_seq(
                    emit_ph(prog, prog.len() as int),
                    full_refs.take(j as int),
                    labels_of(prog),
                ),
                forall|jj: int|
                    0 <= jj < j ==> labels_of(prog).contains_key(
                        (#[trigger] full_refs[jj]).0,
                    ),
                vars_ok(prog),
            decreases nrefs - j,
        {
            match assoc_lookup(&self.labels, &self.label_refs[j].0) {
                None => {
                    let e = ExecError::new(
                        ErrorKind::UnresolvedLabel,
                        self.label_refs[j].0.as_str(),
                    );
                    proof {
                        lemma_refs_props(prog, prog.len() as int);
                        let l = full_refs[j as int].0;
                        assert(e.details@ == l);
                        assert(!labels_of(prog).contains_key(l));
                        let t = choose|t: int|
                            0 <= t < prog.len() && stmt_ref_label(prog[t]) == Some(l);
                        assert(stmt_ref_label(prog[t]) == Some(e.details@));
                        assert(!labels_ok(prog));
                    }
                    return Err(e);
                },
                Some(dest) => {
                    let pos = self.label_refs[j].1;
                    self.labels_resolved[pos] = Instruction::Push(dest as i64);
                    proof {
                        assert(full_refs.take(j + 1).drop_last() =~= full_refs.take(j as int));
                        assert(full_refs.take(j + 1).last() == full_refs[j as int]);
                    }
                },
            }
            j += 1;
        }
        proof {
            assert(full_refs.take(nrefs as int) =~= full_refs);
            lemma_assemble(prog, prog.len() as int);
            lemma_refs_props(prog, prog.len() as int);
            assert forall|t: int| 0 <= t < prog.len() implies match stmt_ref_label(
                #[trigger] prog[t],
            ) {
                Some(l) => labels_of(prog).contains_key(l),
                None => true,
            } by {
                if stmt_ref_label(prog[t]) is Some {
                    let jj = choose|jj: int|
                        0 <= jj < full_refs.len() && (#[trigger] full_refs[jj]).0
                            == stmt_ref_label(prog[t])->0;
                    assert(labels_of(prog).contains_key(full_refs[jj].0));
                }
            }
            assert(labels_ok(prog));
        }
        let out = self.labels_resolved.clone();
        proof {
            assert forall|k: int| 0 <= k < out@.len() implies out@[k]
                == self.labels_resolved@[k] by {
                assert(cloned::<Instruction>(self.labels_resolved@[k], out@[k]));
            }
            assert(out@ =~= self.labels_resolved@);
        }
        Ok(out)
    }
}

} // verus!
