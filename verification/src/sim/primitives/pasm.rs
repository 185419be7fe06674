use vstd::prelude::*;
use vstd::hash_map::StringHashMap;

use super::data::{
    Data,
    lemma_low_bit_ops,
    lemma_low_bits,
    lemma_low_bits_xor,
    lemma_one_bit_changed,
    lemma_one_bit_changed_at,
};

verus! {

/// When a program component is brought up to date.
#[derive(Debug, Clone, Copy, PartialEq, Eq, Structural)]
pub enum ProgramUpdateType {
    InputChanges,
    Always,
}

/// Expression of a program: gates over sub-expressions, variables and constants.
pub enum PASMExpr {
    Not(Box<PASMExpr>),
    And(Vec<PASMExpr>),
    Or(Vec<PASMExpr>),
    Nand(Vec<PASMExpr>),
    Nor(Vec<PASMExpr>),
    Xor(Vec<PASMExpr>),
    BitVec(Vec<PASMExpr>),
    Var(String),
    Const(Data),
}

/// Value of an expression, given the variables.
pub open spec fn eval(vars: Map<Seq<char>, Data>, e: PASMExpr) -> Data
    decreases e,
{
    match e {
        PASMExpr::Not(x) => {
            let v = eval(vars, *x);
            Data::masked(!v.value, v.size)
        },
        PASMExpr::And(es) => fold_and(vars, es@),
        PASMExpr::Or(es) => fold_or(vars, es@),
        PASMExpr::Nand(es) => {
            let v = fold_and(vars, es@);
            Data::masked(!v.value, v.size)
        },
        PASMExpr::Nor(es) => {
            let v = fold_or(vars, es@);
            Data::masked(!v.value, v.size)
        },
        PASMExpr::Xor(es) => fold_xor(vars, es@),
        PASMExpr::BitVec(es) => Data { value: bitvec_value(vars, es@), size: es.len() as u8 },
        PASMExpr::Var(name) => vars[name@],
        PASMExpr::Const(d) => d,
    }
}

/// Left fold of `&` over the values of `es`, starting from a high bit.
pub open spec fn fold_and(vars: Map<Seq<char>, Data>, es: Seq<PASMExpr>) -> Data
    decreases es,
{
    if es.len() == 0 {
        Data { value: 1, size: 1 }
    } else {
        let acc = fold_and(vars, es.drop_last());
        Data::masked(acc.value & eval(vars, es.last()).value, acc.size)
    }
}

/// Left fold of `|` over the values of `es`, starting from a low bit.
pub open spec fn fold_or(vars: Map<Seq<char>, Data>, es: Seq<PASMExpr>) -> Data
    decreases es,
{
    if es.len() == 0 {
        Data { value: 0, size: 1 }
    } else {
        let acc = fold_or(vars, es.drop_last());
        Data::masked(acc.value | eval(vars, es.last()).value, acc.size)
    }
}

/// Left fold of `^` over the values of `es`, starting from the first one.
pub open spec fn fold_xor(vars: Map<Seq<char>, Data>, es: Seq<PASMExpr>) -> Data
    decreases es,
{
    if es.len() == 0 {
        Data { value: 0, size: 0 }
    } else if es.len() == 1 {
        eval(vars, es[0])
    } else {
        let acc = fold_xor(vars, es.drop_last());
        Data::masked(acc.value ^ eval(vars, es.last()).value, acc.size)
    }
}

/// Bits of a bit vector: bit `i` is set when the value of `es[i]` is not zero.
pub open spec fn bitvec_value(vars: Map<Seq<char>, Data>, es: Seq<PASMExpr>) -> usize
    decreases es,
{
    if es.len() == 0 {
        0
    } else {
        let v = bitvec_value(vars, es.drop_last());
        let i = (es.len() - 1) as u8;
        if eval(vars, es.last()).value != 0 {
            v | (1usize << i)
        } else {
            v & !(1usize << i)
        }
    }
}


/// The expression can be evaluated without a missing variable, a width
/// mismatch between operands or a shift overflow.
pub open spec fn evaluable(vars: Map<Seq<char>, Data>, e: PASMExpr) -> bool
    decreases e,
{
    match e {
        PASMExpr::Not(x) => evaluable(vars, *x) && eval(vars, *x).width_ok(),
        PASMExpr::And(es) => all_single_bits(vars, es@),
        PASMExpr::Or(es) => all_single_bits(vars, es@),
        PASMExpr::Nand(es) => all_single_bits(vars, es@),
        PASMExpr::Nor(es) => all_single_bits(vars, es@),
        PASMExpr::Xor(es) => es.len() > 0 && all_same_width(vars, es@),
        PASMExpr::BitVec(es) => es.len() <= usize::BITS && all_evaluable(vars, es@),
        PASMExpr::Var(name) => vars.contains_key(name@),
        PASMExpr::Const(_) => true,
    }
}

/// Every expression can be evaluated.
pub open spec fn all_evaluable(vars: Map<Seq<char>, Data>, es: Seq<PASMExpr>) -> bool
    decreases es,
{
    if es.len() == 0 {
        true
    } else {
        all_evaluable(vars, es.drop_last()) && evaluable(vars, es.last())
    }
}

/// Every expression can be evaluated and has a one-bit value.
pub open spec fn all_single_bits(vars: Map<Seq<char>, Data>, es: Seq<PASMExpr>) -> bool
    decreases es,
{
    if es.len() == 0 {
        true
    } else {
        all_single_bits(vars, es.drop_last()) && evaluable(vars, es.last()) && eval(
            vars,
            es.last(),
        ).size == 1
    }
}

/// Every expression can be evaluated, and, when there are several, all values
/// have the width of the first one, a width the masking can handle.
pub open spec fn all_same_width(vars: Map<Seq<char>, Data>, es: Seq<PASMExpr>) -> bool
    decreases es,
{
    if es.len() == 0 {
        true
    } else if es.len() == 1 {
        evaluable(vars, es[0])
    } else {
        all_same_width(vars, es.drop_last()) && evaluable(vars, es.last()) && eval(
            vars,
            es.last(),
        ).size == eval(vars, es[0]).size && eval(vars, es[0]).width_ok()
    }
}

proof fn lemma_fold_sizes(vars: Map<Seq<char>, Data>, es: Seq<PASMExpr>)
    ensures
        fold_and(vars, es).size == 1,
        fold_or(vars, es).size == 1,
        es.len() > 0 ==> fold_xor(vars, es).size == eval(vars, es[0]).size,
    decreases es.len(),
{
    if es.len() > 0 {
        lemma_fold_sizes(vars, es.drop_last());
    }
}

/// Value of `expr` under the variables `vars`.
pub fn eval_in(vars: &StringHashMap<Data>, expr: &PASMExpr) -> (d: Data)
    requires
        evaluable(vars@, *expr),
    ensures
        d == eval(vars@, *expr),
    decreases expr,
{
    match expr {
        PASMExpr::Not(x) => {
            let v = eval_in(vars, x);
            core::ops::Not::not(v)
        },
        PASMExpr::And(es) => fold_and_in(vars, es),
        PASMExpr::Or(es) => fold_or_in(vars, es),
        PASMExpr::Nand(es) => {
            let v = fold_and_in(vars, es);
            proof {
                lemma_fold_sizes(vars@, es@);
            }
            core::ops::Not::not(v)
        },
        PASMExpr::Nor(es) => {
            let v = fold_or_in(vars, es);
            proof {
                lemma_fold_sizes(vars@, es@);
            }
            core::ops::Not::not(v)
        },
        PASMExpr::Xor(es) => fold_xor_in(vars, es),
        PASMExpr::BitVec(es) => bitvec_in(vars, es),
        PASMExpr::Var(name) => {
            let v = vars.get(name.as_str());
            *v.unwrap()
        },
        PASMExpr::Const(d) => *d,
    }
}

fn fold_and_in(vars: &StringHashMap<Data>, es: &Vec<PASMExpr>) -> (d: Data)
    requires
        all_single_bits(vars@, es@),
    ensures
        d == fold_and(vars@, es@),
    decreases es,
{
    let mut acc = Data::high();
    let mut k: usize = 0;
    while k < es.len()
        invariant
            k <= es.len(),
            all_single_bits(vars@, es@),
            acc == fold_and(vars@, es@.take(k as int)),
        decreases es.len() - k,
    {
        proof {
            lemma_single_bits_at(vars@, es@, k as int);
            lemma_fold_sizes(vars@, es@.take(k as int));
            assert(es@.take(k as int + 1).drop_last() == es@.take(k as int));
        }
        let x = eval_in(vars, &es[k]);
        acc = acc & x;
        k = k + 1;
    }
    proof {
        assert(es@.take(es.len() as int) == es@);
    }
    acc
}

fn fold_xor_in(vars: &StringHashMap<Data>, es: &Vec<PASMExpr>) -> (d: Data)
    requires
        es.len() > 0,
        all_same_width(vars@, es@),
    ensures
        d == fold_xor(vars@, es@),
    decreases es,
{
    proof {
        lemma_same_width_at(vars@, es@, 0);
    }
    let mut acc = eval_in(vars, &es[0]);
    let mut k: usize = 1;
    proof {
        assert(es@.take(1).drop_last().len() == 0);
    }
    while k < es.len()
        invariant
            1 <= k <= es.len(),
            all_same_width(vars@, es@),
            acc == fold_xor(vars@, es@.take(k as int)),
        decreases es.len() - k,
    {
        proof {
            lemma_same_width_at(vars@, es@, k as int);
            lemma_fold_sizes(vars@, es@.take(k as int));
            assert(es@.take(k as int)[0] == es@[0]);
            assert(es@.take(k as int + 1).drop_last() == es@.take(k as int));
        }
        let x = eval_in(vars, &es[k]);
        acc = acc ^ x;
        k = k + 1;
    }
    proof {
        assert(es@.take(es.len() as int) == es@);
    }
    acc
}

fn bitvec_in(vars: &StringHashMap<Data>, es: &Vec<PASMExpr>) -> (d: Data)
    requires
        es.len() <= usize::BITS,
        all_evaluable(vars@, es@),
    ensures
        d == (Data { value: bitvec_value(vars@, es@), size: es.len() as u8 }),
    decreases es,
{
    let len = es.len();
    assert(usize::BITS == 32 || usize::BITS == 64);
    let mut data = Data::new(0, len as u8);
    let mut k: usize = 0;
    proof {
        assert(es@.take(0).len() == 0);
    }
    while k < len
        invariant
            k <= len == es.len(),
            len <= 64,
            len <= usize::BITS,
            all_evaluable(vars@, es@),
            data.size == len as u8,
            data.value == bitvec_value(vars@, es@.take(k as int)),
        decreases len - k,
    {
        proof {
            lemma_all_evaluable_at(vars@, es@, k as int);
            assert(es@.take(k as int + 1).drop_last() == es@.take(k as int));
        }
        let b = eval_in(vars, &es[k]).as_bool();
        data.set_bit_at(k as u8, b);
        k = k + 1;
    }
    proof {
        assert(es@.take(len as int) == es@);
    }
    data
}

fn fold_or_in(vars: &StringHashMap<Data>, es: &Vec<PASMExpr>) -> (d: Data)
    requires
        all_single_bits(vars@, es@),
    ensures
        d == fold_or(vars@, es@),
    decreases es,
{
    let mut acc = Data::low();
    let mut k: usize = 0;
    while k < es.len()
        invariant
            k <= es.len(),
            all_single_bits(vars@, es@),
            acc == fold_or(vars@, es@.take(k as int)),
        decreases es.len() - k,
    {
        proof {
            lemma_single_bits_at(vars@, es@, k as int);
            lemma_fold_sizes(vars@, es@.take(k as int));
            assert(es@.take(k as int + 1).drop_last() == es@.take(k as int));
        }
        let x = eval_in(vars, &es[k]);
        acc = acc | x;
        k = k + 1;
    }
    proof {
        assert(es@.take(es.len() as int) == es@);
    }
    acc
}

proof fn lemma_all_evaluable_at(vars: Map<Seq<char>, Data>, es: Seq<PASMExpr>, k: int)
    requires
        all_evaluable(vars, es),
        0 <= k < es.len(),
    ensures
        evaluable(vars, es[k]),
    decreases es.len(),
{
    if k < es.len() - 1 {
        lemma_all_evaluable_at(vars, es.drop_last(), k);
    }
}

proof fn lemma_single_bits_at(vars: Map<Seq<char>, Data>, es: Seq<PASMExpr>, k: int)
    requires
        all_single_bits(vars, es),
        0 <= k < es.len(),
    ensures
        evaluable(vars, es[k]),
        eval(vars, es[k]).size == 1,
    decreases es.len(),
{
    if k < es.len() - 1 {
        lemma_single_bits_at(vars, es.drop_last(), k);
    }
}

proof fn lemma_same_width_at(vars: Map<Seq<char>, Data>, es: Seq<PASMExpr>, k: int)
    requires
        all_same_width(vars, es),
        0 <= k < es.len(),
    ensures
        evaluable(vars, es[k]),
        es.len() > 1 ==> eval(vars, es[k]).size == eval(vars, es[0]).size,
        es.len() > 1 ==> eval(vars, es[0]).width_ok(),
    decreases es.len(),
{
    if es.len() > 1 && k < es.len() - 1 {
        lemma_same_width_at(vars, es.drop_last(), k);
        if es.len() == 2 {
            assert(es.drop_last()[0] == es[0]);
        }
    }
}


/// Instruction of a program.
pub enum PASMCommand {
    /// Stores the value of an expression in a variable.
    Mov { name: String, value: PASMExpr },
    /// Marks a position that jumps can go to.
    Label { name: String },
    /// Jumps to a label.
    Goto { label: String },
    /// Compares two values; this sets the comparison flag.
    Cmp { v1: PASMExpr, v2: PASMExpr },
    /// Jumps to a label if the last comparison found `equal`.
    Je { label: String },
    /// Jumps to a label if the last comparison found `not equal`.
    Jne { label: String },
    /// Jumps to a label if the last comparison found `greater than`.
    Jg { label: String },
    /// Jumps to a label if the last comparison found `less than`.
    Jl { label: String },
    /// Jumps to a label if the last comparison found `greater than or equal`.
    Jge { label: String },
    /// Jumps to a label if the last comparison found `less than or equal`.
    Jle { label: String },
    /// Waits for an amount of time (ns).
    Wait { time: u128 },
}

/// Registers of a running program.
pub struct PASMProgramState {
    /// Declared variables.
    pub vars: StringHashMap<Data>,
    /// Program counter.
    pub pc: usize,
    /// Flags of the last comparison: bit 0 is clear when the values were
    /// equal and set when they were not; bit 1 is clear when the first was
    /// not less than the second and set when it was less.
    pub flags: usize,
    /// Position of each label.
    pub label_pos: StringHashMap<usize>,
    /// Time at which the current wait started.
    pub waiting_from: Option<u128>,
}

/// The registers of a program as mathematical values.
pub struct PASMState {
    pub vars: Map<Seq<char>, Data>,
    pub pc: usize,
    pub flags: usize,
    pub label_pos: Map<Seq<char>, usize>,
    pub waiting_from: Option<u128>,
}

impl View for PASMProgramState {
    type V = PASMState;

    open spec fn view(&self) -> PASMState {
        PASMState {
            vars: self.vars@,
            pc: self.pc,
            flags: self.flags,
            label_pos: self.label_pos@,
            waiting_from: self.waiting_from,
        }
    }
}

/// A program written in the primitive assembly.
pub struct PASM {
    pub cmds: Vec<PASMCommand>,
    pub update_type: ProgramUpdateType,
    pub state: PASMProgramState,
}

/// Position of each label among `cmds`; a name that labels several commands
/// goes to the last of them.
pub open spec fn label_positions(cmds: Seq<PASMCommand>) -> Map<Seq<char>, usize>
    decreases cmds.len(),
{
    if cmds.len() == 0 {
        Map::empty()
    } else {
        let m = label_positions(cmds.drop_last());
        match cmds.last() {
            PASMCommand::Label { name } => m.insert(name@, (cmds.len() - 1) as usize),
            _ => m,
        }
    }
}

/// Registers of a new program: no variables, counter and flags at zero, the
/// labels of `cmds`, no wait going on.
pub open spec fn initial_state(cmds: Seq<PASMCommand>) -> PASMState {
    PASMState {
        vars: Map::empty(),
        pc: 0,
        flags: 0,
        label_pos: label_positions(cmds),
        waiting_from: None,
    }
}

/// Flag bit of equality: clear when the compared values are equal, set when
/// they are not.
pub const FLAG_EQUAL: usize = 0;

/// Flag bit set when the first compared value is less than the second.
pub const FLAG_LESS: usize = 1;

/// `flags` with bit `bit` set to `val`.
pub open spec fn flag_set(flags: usize, bit: usize, val: bool) -> usize {
    if val {
        flags | (1usize << bit)
    } else {
        flags & !(1usize << bit)
    }
}

/// Bit `bit` of `flags`.
pub open spec fn flag_bit(flags: usize, bit: usize) -> bool {
    flags & (1usize << bit) != 0
}

/// Flags after comparing `a` with `b`: bit 0 is clear when they are equal
/// and set when they are not; bit 1 is set when `a` is less than `b`.
pub open spec fn compare_flags(flags: usize, a: Data, b: Data) -> usize {
    flag_set(flag_set(flags, FLAG_EQUAL, a != b), FLAG_LESS, a.value < b.value)
}

/// Whether a conditional jump is taken under `flags`. Commands that are not
/// conditional jumps give `false`.
pub open spec fn jump_taken(cmd: PASMCommand, flags: usize) -> bool {
    let eq = !flag_bit(flags, FLAG_EQUAL);
    let less = flag_bit(flags, FLAG_LESS);
    match cmd {
        PASMCommand::Je { .. } => eq,
        PASMCommand::Jne { .. } => !eq,
        PASMCommand::Jg { .. } => !eq && !less,
        PASMCommand::Jl { .. } => less,
        PASMCommand::Jge { .. } => eq || !less,
        PASMCommand::Jle { .. } => eq || less,
        _ => false,
    }
}

/// Target label of a jump command.
pub open spec fn jump_label(cmd: PASMCommand) -> Seq<char> {
    match cmd {
        PASMCommand::Goto { label } => label@,
        PASMCommand::Je { label } => label@,
        PASMCommand::Jne { label } => label@,
        PASMCommand::Jg { label } => label@,
        PASMCommand::Jl { label } => label@,
        PASMCommand::Jge { label } => label@,
        PASMCommand::Jle { label } => label@,
        _ => Seq::empty(),
    }
}

/// The command at position `pc`.
pub open spec fn command_at(cmds: Seq<PASMCommand>, pc: usize) -> PASMCommand {
    cmds[pc as int]
}

/// The position after `pc`.
pub open spec fn after(pc: usize) -> usize {
    (pc + 1) as usize
}


/// The command at the program counter can run without a missing label or
/// variable, a bad expression or a time overflow.
pub open spec fn step_ok(cmds: Seq<PASMCommand>, s: PASMState) -> bool {
    &&& s.pc < cmds.len()
    &&& match command_at(cmds, s.pc) {
        PASMCommand::Mov { name, value } => evaluable(s.vars, value),
        PASMCommand::Label { .. } => true,
        PASMCommand::Goto { label } => s.label_pos.contains_key(label@),
        PASMCommand::Cmp { v1, v2 } => evaluable(s.vars, v1) && evaluable(s.vars, v2),
        PASMCommand::Wait { time } => match s.waiting_from {
            Some(from) => from + time <= u128::MAX,
            None => true,
        },
        _ => jump_taken(command_at(cmds, s.pc), s.flags) ==> s.label_pos.contains_key(
            jump_label(command_at(cmds, s.pc)),
        ),
    }
}

/// The registers after the command at the program counter, and whether the
/// command lets the program go on, before the end of the program is checked.
pub open spec fn exec_command(cmds: Seq<PASMCommand>, s: PASMState, t: u128) -> (PASMState, bool) {
    let next = after(s.pc);
    let cmd = command_at(cmds, s.pc);
    match cmd {
        PASMCommand::Mov { name, value } => (
            PASMState { vars: s.vars.insert(name@, eval(s.vars, value)), pc: next, ..s },
            true,
        ),
        PASMCommand::Label { .. } => (PASMState { pc: next, ..s }, true),
        PASMCommand::Goto { label } => (PASMState { pc: s.label_pos[label@], ..s }, true),
        PASMCommand::Cmp { v1, v2 } => (
            PASMState { flags: compare_flags(s.flags, eval(s.vars, v1), eval(s.vars, v2)), pc: next, ..s },
            true,
        ),
        PASMCommand::Wait { time } => match s.waiting_from {
            Some(from) => if from + time <= t {
                (PASMState { waiting_from: None, pc: next, ..s }, true)
            } else {
                (s, false)
            },
            None => (PASMState { waiting_from: Some(t), ..s }, false),
        },
        _ => if jump_taken(cmd, s.flags) {
            (PASMState { pc: s.label_pos[jump_label(cmd)], ..s }, true)
        } else {
            (PASMState { pc: next, ..s }, true)
        },
    }
}

/// One step of a run: the command at the program counter, then, when it was
/// the last command, back to the start and stop. The boolean tells whether
/// the run goes on.
pub open spec fn step_spec(cmds: Seq<PASMCommand>, s: PASMState, t: u128) -> (PASMState, bool) {
    let (n, running) = exec_command(cmds, s, t);
    if s.pc >= cmds.len() - 1 {
        (PASMState { pc: 0, ..n }, false)
    } else {
        (n, running)
    }
}

/// At most `fuel` steps; the boolean tells whether the program stopped by
/// itself.
pub open spec fn run_spec(cmds: Seq<PASMCommand>, s: PASMState, t: u128, fuel: nat) -> (
    PASMState,
    bool,
)
    decreases fuel,
{
    if fuel == 0 {
        (s, false)
    } else {
        let (n, running) = step_spec(cmds, s, t);
        if running {
            run_spec(cmds, n, t, (fuel - 1) as nat)
        } else {
            (n, true)
        }
    }
}

/// Every step that a run of at most `fuel` steps takes can be taken.
pub open spec fn run_ok(cmds: Seq<PASMCommand>, s: PASMState, t: u128, fuel: nat) -> bool
    decreases fuel,
{
    fuel == 0 || (step_ok(cmds, s) && (step_spec(cmds, s, t).1 ==> run_ok(
        cmds,
        step_spec(cmds, s, t).0,
        t,
        (fuel - 1) as nat,
    )))
}

fn set_flag_in(state: &mut PASMProgramState, bit: usize, val: bool)
    requires
        bit < usize::BITS,
    ensures
        final(state)@ == (PASMState { flags: flag_set(old(state).flags, bit, val), ..old(state)@ }),
{
    if val {
        state.flags = state.flags | (1usize << bit);
    } else {
        state.flags = state.flags & !(1usize << bit);
    }
}

fn jump_if(state: &mut PASMProgramState, taken: bool, label: &String)
    requires
        old(state).pc < usize::MAX,
        taken ==> old(state).label_pos@.contains_key(label@),
    ensures
        final(state)@ == (PASMState {
            pc: if taken {
                old(state).label_pos@[label@]
            } else {
                after(old(state).pc)
            },
            ..old(state)@
        }),
{
    if taken {
        state.pc = *state.label_pos.get(label.as_str()).unwrap();
    } else {
        state.pc = state.pc + 1;
    }
}

/// Table of label positions of `cmds`.
fn build_label_positions(cmds: &Vec<PASMCommand>) -> (m: StringHashMap<usize>)
    ensures
        m@ == label_positions(cmds@),
{
    let mut label_pos: StringHashMap<usize> = StringHashMap::new();
    let mut i: usize = 0;
    while i < cmds.len()
        invariant
            i <= cmds.len(),
            label_pos@ == label_positions(cmds@.take(i as int)),
        decreases cmds.len() - i,
    {
        proof {
            assert(cmds@.take(i as int + 1).drop_last() == cmds@.take(i as int));
        }
        if let PASMCommand::Label { name } = &cmds[i] {
            label_pos.insert(name.clone(), i);
        }
        i = i + 1;
    }
    proof {
        assert(cmds@.take(cmds.len() as int) == cmds@);
    }
    label_pos
}

impl PASM {
    pub fn new(update_type: ProgramUpdateType, cmds: Vec<PASMCommand>) -> (p: Self)
        ensures
            p.cmds@ == cmds@,
            p.update_type == update_type,
            p.state@ == initial_state(cmds@),
    {
        let label_pos = build_label_positions(&cmds);
        PASM {
            cmds,
            update_type,
            state: PASMProgramState {
                vars: StringHashMap::new(),
                pc: 0,
                flags: 0,
                label_pos,
                waiting_from: None,
            },
        }
    }

    /// Replaces the variables with `vars`; a name given twice keeps its last value.
    pub fn with_default_vars(self, vars: Vec<(String, Data)>) -> (p: Self)
        ensures
            p.cmds@ == self.cmds@,
            p.update_type == self.update_type,
            p.state@ == (PASMState { vars: vars_map(vars@), ..self.state@ }),
    {
        let mut p = self;
        p.state.vars = build_vars(vars);
        p
    }

    /// Sets flag bit `bit` to `val`.
    pub fn set_flag(&mut self, bit: usize, val: bool)
        requires
            bit < usize::BITS,
        ensures
            final(self).cmds@ == old(self).cmds@,
            final(self).update_type == old(self).update_type,
            final(self).state@ == (PASMState { flags: flag_set(old(self).state.flags, bit, val), ..old(self).state@ }),
    {
        set_flag_in(&mut self.state, bit, val);
    }

    /// Flag bit `bit`.
    pub fn flag_at(&self, bit: usize) -> (b: bool)
        requires
            bit < usize::BITS,
        ensures
            b == flag_bit(self.state.flags, bit),
    {
        (self.state.flags & (1usize << bit)) != 0
    }

    /// Value of `expr` under the program's variables.
    pub fn eval_expr(&self, expr: &PASMExpr) -> (d: Data)
        requires
            evaluable(self.state.vars@, *expr),
        ensures
            d == eval(self.state.vars@, *expr),
    {
        eval_in(&self.state.vars, expr)
    }

    /// Value of the variable `name`, if the program has one.
    pub fn var(&self, name: &str) -> (d: Option<Data>)
        ensures
            d == (if self.state.vars@.contains_key(name@) {
                Some(self.state.vars@[name@])
            } else {
                None
            }),
    {
        match self.state.vars.get(name) {
            Some(v) => Some(*v),
            None => None,
        }
    }

    /// Runs the command at the program counter; returns whether the run goes on.
    pub fn step(&mut self, curr_time: u128) -> (running: bool)
        requires
            step_ok(old(self).cmds@, old(self).state@),
        ensures
            final(self).cmds@ == old(self).cmds@,
            final(self).update_type == old(self).update_type,
            (final(self).state@, running) == step_spec(old(self).cmds@, old(self).state@, curr_time),
    {
        let pc = self.state.pc;
        assert(pc < self.cmds.len());
        let ghost s = self.state@;
        let ghost cmds = self.cmds@;
        let mut running = true;
        let flags = self.state.flags;
        let eq = (flags & (1usize << FLAG_EQUAL)) == 0;
        let less = (flags & (1usize << FLAG_LESS)) != 0;
        match &self.cmds[pc] {
            PASMCommand::Mov { name, value } => {
                let val = eval_in(&self.state.vars, value);
                self.state.vars.insert(name.clone(), val);
                self.state.pc = pc + 1;
            },
            PASMCommand::Label { .. } => {
                self.state.pc = pc + 1;
            },
            PASMCommand::Goto { label } => {
                self.state.pc = *self.state.label_pos.get(label.as_str()).unwrap();
            },
            PASMCommand::Cmp { v1, v2 } => {
                let a = eval_in(&self.state.vars, v1);
                let b = eval_in(&self.state.vars, v2);
                set_flag_in(&mut self.state, FLAG_EQUAL, a != b);
                set_flag_in(&mut self.state, FLAG_LESS, a.value < b.value);
                self.state.pc = pc + 1;
            },
            PASMCommand::Je { label } => {
                let taken = eq;
                jump_if(&mut self.state, taken, label);
            },
            PASMCommand::Jne { label } => {
                let taken = !eq;
                jump_if(&mut self.state, taken, label);
            },
            PASMCommand::Jg { label } => {
                let taken = !eq && !less;
                jump_if(&mut self.state, taken, label);
            },
            PASMCommand::Jl { label } => {
                let taken = less;
                jump_if(&mut self.state, taken, label);
            },
            PASMCommand::Jge { label } => {
                let taken = eq || !less;
                jump_if(&mut self.state, taken, label);
            },
            PASMCommand::Jle { label } => {
                let taken = eq || less;
                jump_if(&mut self.state, taken, label);
            },
            PASMCommand::Wait { time } => {
                match self.state.waiting_from {
                    Some(from) => {
                        if from + *time <= curr_time {
                            self.state.waiting_from = None;
                            self.state.pc = pc + 1;
                        } else {
                            running = false;
                        }
                    },
                    None => {
                        self.state.waiting_from = Some(curr_time);
                        running = false;
                    },
                }
            },
        }
        if pc >= self.cmds.len() - 1 {
            self.state.pc = 0;
            running = false;
        }
        running
    }

    /// Runs the program from its counter until it stops by itself or
    /// `max_steps` steps were taken; returns whether it stopped by itself.
    pub fn run(&mut self, curr_time: u128, max_steps: usize) -> (stopped: bool)
        requires
            run_ok(old(self).cmds@, old(self).state@, curr_time, max_steps as nat),
        ensures
            final(self).cmds@ == old(self).cmds@,
            final(self).update_type == old(self).update_type,
            (final(self).state@, stopped) == run_spec(
                old(self).cmds@,
                old(self).state@,
                curr_time,
                max_steps as nat,
            ),
    {
        let mut left = max_steps;
        while left > 0
            invariant
                self.cmds@ == old(self).cmds@,
                self.update_type == old(self).update_type,
                run_ok(self.cmds@, self.state@, curr_time, left as nat),
                run_spec(self.cmds@, self.state@, curr_time, left as nat) == run_spec(
                    old(self).cmds@,
                    old(self).state@,
                    curr_time,
                    max_steps as nat,
                ),
            decreases left,
        {
            let running = self.step(curr_time);
            if !running {
                return true;
            }
            left = left - 1;
        }
        false
    }
}

/// The variables given as pairs, a later pair overriding an earlier one with
/// the same name.
pub open spec fn vars_map(pairs: Seq<(String, Data)>) -> Map<Seq<char>, Data>
    decreases pairs.len(),
{
    if pairs.len() == 0 {
        Map::empty()
    } else {
        vars_map(pairs.drop_last()).insert(pairs.last().0@, pairs.last().1)
    }
}

/// Builds a variable table from pairs, a later pair overriding an earlier one.
pub fn build_vars(pairs: Vec<(String, Data)>) -> (m: StringHashMap<Data>)
    ensures
        m@ == vars_map(pairs@),
{
    let mut m: StringHashMap<Data> = StringHashMap::new();
    let mut i: usize = 0;
    while i < pairs.len()
        invariant
            i <= pairs.len(),
            m@ == vars_map(pairs@.take(i as int)),
        decreases pairs.len() - i,
    {
        proof {
            assert(pairs@.take(i as int + 1).drop_last() == pairs@.take(i as int));
        }
        let (name, value) = &pairs[i];
        m.insert(name.clone(), *value);
        i = i + 1;
    }
    proof {
        assert(pairs@.take(pairs.len() as int) == pairs@);
    }
    m
}


/// After a flag bit is set to a value, reading it gives that value, and the
/// other bits are what they were.
pub proof fn lemma_flag_set_then_read(flags: usize, bit: usize, val: bool, other: usize)
    requires
        bit < usize::BITS,
        other < usize::BITS,
    ensures
        flag_bit(flag_set(flags, bit, val), bit) == val,
        other != bit ==> flag_bit(flag_set(flags, bit, val), other) == flag_bit(flags, other),
{
    assert((flags | (1usize << bit)) & (1usize << bit) != 0usize) by (bit_vector)
        requires bit < usize::BITS;
    assert(!((flags & !(1usize << bit)) & (1usize << bit) != 0usize)) by (bit_vector)
        requires bit < usize::BITS;
    assert(other != bit ==> (((flags | (1usize << bit)) & (1usize << other) != 0usize) == (flags & (1usize << other) != 0usize))) by (bit_vector)
        requires bit < usize::BITS, other < usize::BITS;
    assert(other != bit ==> (((flags & !(1usize << bit)) & (1usize << other) != 0usize) == (flags & (1usize << other) != 0usize))) by (bit_vector)
        requires bit < usize::BITS, other < usize::BITS;
}

/// Where the label table of a new program sends a jump to `name`: the last
/// `Label` command of that name. A name is in the table exactly when some
/// `Label` command carries it.
pub proof fn lemma_label_positions(cmds: Seq<PASMCommand>, name: Seq<char>)
    requires
        cmds.len() <= usize::MAX,
    ensures
        label_positions(cmds).contains_key(name) ==> {
            let p = label_positions(cmds)[name] as int;
            &&& 0 <= p < cmds.len()
            &&& cmds[p] matches PASMCommand::Label { name: n } && n@ == name
            &&& forall|j: int|
                p < j < cmds.len() ==> !(#[trigger] cmds[j] matches PASMCommand::Label { name: n } && n@
                    == name)
        },
        label_positions(cmds).contains_key(name) <==> exists|i: int|
            0 <= i < cmds.len() && (#[trigger] cmds[i] matches PASMCommand::Label { name: n } && n@
                == name),
    decreases cmds.len(),
{
    if cmds.len() > 0 {
        let prefix = cmds.drop_last();
        lemma_label_positions(prefix, name);
        let last = cmds.len() - 1;
        assert forall|j: int| 0 <= j < prefix.len() implies #[trigger] prefix[j] == cmds[j] by {}
        let last_names = cmds[last] matches PASMCommand::Label { name: n } && n@ == name;
        if !last_names && label_positions(prefix).contains_key(name) {
            let i = label_positions(prefix)[name] as int;
            assert(prefix[i] == cmds[i]);
            assert(label_positions(cmds)[name] == label_positions(prefix)[name]);
            assert forall|j: int| i < j < cmds.len() implies !(#[trigger] cmds[j] matches PASMCommand::Label { name: n } && n@ == name) by {
                if j < last {
                    assert(prefix[j] == cmds[j]);
                }
            }
        }
        if exists|i: int|
            0 <= i < cmds.len() && (#[trigger] cmds[i] matches PASMCommand::Label { name: n } && n@
                == name) {
            let i = choose|i: int|
                0 <= i < cmds.len() && (#[trigger] cmds[i] matches PASMCommand::Label { name: n } && n@
                    == name);
            if i < last {
                assert(prefix[i] == cmds[i]);
            }
        }
    }
}


/// Every label of `s` names a command of `cmds`.
pub open spec fn labels_in(cmds: Seq<PASMCommand>, s: PASMState) -> bool {
    forall|l: Seq<char>| #[trigger] s.label_pos.contains_key(l) ==> s.label_pos[l] < cmds.len()
}

/// One step keeps the labels and leaves the counter on a command.
pub proof fn lemma_step_keeps_counter(cmds: Seq<PASMCommand>, s: PASMState, t: u128)
    requires
        step_ok(cmds, s),
        labels_in(cmds, s),
    ensures
        step_spec(cmds, s, t).0.pc < cmds.len(),
        step_spec(cmds, s, t).0.label_pos == s.label_pos,
{
}

/// A run that can take its steps keeps the labels, and its counter stays on
/// a command of the program.
pub proof fn lemma_run_keeps_counter(cmds: Seq<PASMCommand>, s: PASMState, t: u128, fuel: nat)
    requires
        s.pc < cmds.len(),
        labels_in(cmds, s),
        run_ok(cmds, s, t, fuel),
    ensures
        run_spec(cmds, s, t, fuel).0.pc < cmds.len(),
        run_spec(cmds, s, t, fuel).0.label_pos == s.label_pos,
    decreases fuel,
{
    if fuel > 0 {
        lemma_step_keeps_counter(cmds, s, t);
        let n = step_spec(cmds, s, t).0;
        assert(labels_in(cmds, n));
        if step_spec(cmds, s, t).1 {
            lemma_run_keeps_counter(cmds, n, t, (fuel - 1) as nat);
        }
    }
}

/// Running the last command always ends the run, and leaves the counter at
/// the first command.
pub proof fn lemma_last_command_ends_run(cmds: Seq<PASMCommand>, s: PASMState, t: u128, fuel: nat)
    requires
        cmds.len() > 0,
        s.pc == cmds.len() - 1,
        fuel > 0,
    ensures
        run_spec(cmds, s, t, fuel).1,
        run_spec(cmds, s, t, fuel).0.pc == 0,
        run_spec(cmds, s, t, fuel).0 == step_spec(cmds, s, t).0,
{
}

/// The low bit of a value: whether it reads as high.
pub open spec fn low_bit(d: Data) -> bool {
    d.value & 1usize == 1usize
}

proof fn lemma_gate_folds(vars: Map<Seq<char>, Data>, s: Seq<PASMExpr>)
    ensures
        fold_and(vars, s) == (Data {
            value: if forall|i: int| 0 <= i < s.len() ==> low_bit(#[trigger] eval(vars, s[i])) { 1 } else { 0 },
            size: 1,
        }),
        fold_or(vars, s) == (Data {
            value: if exists|i: int| 0 <= i < s.len() && low_bit(#[trigger] eval(vars, s[i])) { 1 } else { 0 },
            size: 1,
        }),
    decreases s.len(),
{
    if s.len() > 0 {
        let dl = s.drop_last();
        lemma_gate_folds(vars, dl);
        let x = eval(vars, s.last());
        lemma_low_bit_ops(fold_and(vars, dl).value, x.value);
        lemma_low_bit_ops(fold_or(vars, dl).value, x.value);
        assert(s[s.len() - 1] == s.last());
        assert forall|i: int| 0 <= i < dl.len() implies dl[i] == s[i] by {}
        if exists|i: int| 0 <= i < s.len() && low_bit(#[trigger] eval(vars, s[i])) {
            let i = choose|i: int| 0 <= i < s.len() && low_bit(#[trigger] eval(vars, s[i]));
            if i < s.len() - 1 {
                assert(low_bit(eval(vars, dl[i])));
            }
        }
        if exists|i: int| 0 <= i < dl.len() && low_bit(#[trigger] eval(vars, dl[i])) {
            let i = choose|i: int| 0 <= i < dl.len() && low_bit(#[trigger] eval(vars, dl[i]));
            assert(low_bit(eval(vars, s[i])));
        }
        if !(forall|i: int| 0 <= i < s.len() ==> low_bit(#[trigger] eval(vars, s[i]))) {
            let i = choose|i: int| !(0 <= i < s.len() ==> low_bit(#[trigger] eval(vars, s[i])));
            if i < s.len() - 1 {
                assert(!low_bit(eval(vars, dl[i])));
            }
        }
        if !(forall|i: int| 0 <= i < dl.len() ==> low_bit(#[trigger] eval(vars, dl[i]))) {
            let i = choose|i: int| !(0 <= i < dl.len() ==> low_bit(#[trigger] eval(vars, dl[i])));
            assert(!low_bit(eval(vars, s[i])));
        }
    }
}

/// An AND expression is one high bit exactly when every one of its
/// expressions reads as high, and one low bit otherwise; an OR expression
/// is high exactly when some one of them does; NAND and NOR are their
/// negations. This holds for any number of expressions.
pub proof fn lemma_gate_exprs(vars: Map<Seq<char>, Data>, es: Vec<PASMExpr>)
    ensures
        eval(vars, PASMExpr::And(es)) == (Data {
            value: if forall|i: int| 0 <= i < es.len() ==> low_bit(#[trigger] eval(vars, es@[i])) { 1 } else { 0 },
            size: 1,
        }),
        eval(vars, PASMExpr::Or(es)) == (Data {
            value: if exists|i: int| 0 <= i < es.len() && low_bit(#[trigger] eval(vars, es@[i])) { 1 } else { 0 },
            size: 1,
        }),
        eval(vars, PASMExpr::Nand(es)) == (Data {
            value: if forall|i: int| 0 <= i < es.len() ==> low_bit(#[trigger] eval(vars, es@[i])) { 0 } else { 1 },
            size: 1,
        }),
        eval(vars, PASMExpr::Nor(es)) == (Data {
            value: if exists|i: int| 0 <= i < es.len() && low_bit(#[trigger] eval(vars, es@[i])) { 0 } else { 1 },
            size: 1,
        }),
{
    lemma_gate_folds(vars, es@);
    lemma_low_bit_ops(fold_and(vars, es@).value, 0);
    lemma_low_bit_ops(fold_or(vars, es@).value, 0);
}

proof fn lemma_bitvec_value_bits(vars: Map<Seq<char>, Data>, s: Seq<PASMExpr>)
    requires
        s.len() <= usize::BITS,
    ensures
        forall|j: int|
            0 <= j < usize::BITS ==> (((#[trigger] (bitvec_value(vars, s) >> (j as usize))) & 1usize == 1usize) == (j
                < s.len() && eval(vars, s[j]).value != 0)),
    decreases s.len(),
{
    if s.len() > 0 {
        let dl = s.drop_last();
        lemma_bitvec_value_bits(vars, dl);
        let n = (s.len() - 1) as u8;
        assert forall|j: int| 0 <= j < usize::BITS implies (((#[trigger] (bitvec_value(vars, s) >> (j as usize)))
            & 1usize == 1usize) == (j < s.len() && eval(vars, s[j]).value != 0)) by {
            lemma_one_bit_changed_at(bitvec_value(vars, dl), n, j as usize);
            if j < dl.len() {
                assert(dl[j] == s[j]);
            }
            assert(s[s.len() - 1] == s.last());
        }
    } else {
        assert forall|j: int| 0 <= j < usize::BITS implies !(((#[trigger] (bitvec_value(vars, s) >> (j as usize)))
            & 1usize == 1usize)) by {
            lemma_one_bit_changed(0, 0, j as usize);
        }
    }
}

/// A bit vector of at most a word's worth of expressions is as wide as it
/// has expressions, has bit `i` set exactly when its `i`-th expression has a
/// non-zero value, and no bit set at or above its width.
pub proof fn lemma_bitvec_bits(vars: Map<Seq<char>, Data>, es: Vec<PASMExpr>)
    requires
        es.len() <= usize::BITS,
    ensures
        eval(vars, PASMExpr::BitVec(es)).size == es.len(),
        forall|j: int|
            0 <= j < usize::BITS ==> (((#[trigger] (eval(vars, PASMExpr::BitVec(es)).value >> (j as usize))) & 1usize
                == 1usize) == (j < es.len() && eval(vars, es@[j]).value != 0)),
{
    lemma_bitvec_value_bits(vars, es@);
    let v = eval(vars, PASMExpr::BitVec(es)).value;
    assert(v == bitvec_value(vars, es@));
    assert forall|j: int| 0 <= j < usize::BITS implies (((#[trigger] (v >> (j as usize))) & 1usize == 1usize) == (j
        < es.len() && eval(vars, es@[j]).value != 0)) by {
        assert(((bitvec_value(vars, es@) >> (j as usize)) & 1usize == 1usize) == (j < es.len() && eval(vars, es@[j]).value
            != 0));
    }
}

/// Whether bit `j` of the value of `e` is set.
pub open spec fn bit_set(vars: Map<Seq<char>, Data>, e: PASMExpr, j: int) -> bool {
    (eval(vars, e).value >> (j as usize)) & 1usize == 1usize
}

proof fn lemma_count_step(vars: Map<Seq<char>, Data>, s: Seq<PASMExpr>, j: int)
    requires
        s.len() > 0,
    ensures
        (s.filter(|e: PASMExpr| bit_set(vars, e, j)).len() % 2 == 1) == ((s.drop_last().filter(
            |e: PASMExpr| bit_set(vars, e, j),
        ).len() % 2 == 1) != bit_set(vars, s.last(), j)),
{
    reveal(Seq::filter);
}

proof fn lemma_xor_fold_bits(vars: Map<Seq<char>, Data>, s: Seq<PASMExpr>)
    requires
        s.len() >= 2,
        eval(vars, s[0]).width_ok(),
    ensures
        forall|j: int|
            0 <= j < usize::BITS ==> (((#[trigger] (fold_xor(vars, s).value >> (j as usize))) & 1usize == 1usize) == (j
                < eval(vars, s[0]).size && s.filter(|e: PASMExpr| bit_set(vars, e, j)).len() % 2 == 1)),
    decreases s.len(),
{
    let dl = s.drop_last();
    assert(dl[0] == s[0]);
    lemma_fold_sizes(vars, dl);
    if s.len() > 2 {
        lemma_xor_fold_bits(vars, dl);
    }
    assert forall|j: int| 0 <= j < usize::BITS implies (((#[trigger] (fold_xor(vars, s).value >> (j as usize))) & 1usize
        == 1usize) == (j < eval(vars, s[0]).size && s.filter(|e: PASMExpr| bit_set(vars, e, j)).len() % 2 == 1)) by {
        let acc = fold_xor(vars, dl);
        let x = eval(vars, s.last());
        lemma_low_bits_xor(acc.value, x.value, acc.size, j as usize);
        lemma_count_step(vars, s, j);
        if s.len() == 2 {
            lemma_count_step(vars, dl, j);
            assert(dl.drop_last().filter(|e: PASMExpr| bit_set(vars, e, j)).len() == 0) by {
                reveal(Seq::filter);
            }
            assert(dl.last() == s[0]);
        } else {
            assert(((acc.value >> (j as usize)) & 1usize == 1usize) == (j < eval(vars, s[0]).size && dl.filter(
                |e: PASMExpr| bit_set(vars, e, j),
            ).len() % 2 == 1));
        }
    }
}

/// An XOR expression of several values of one width that masking can handle
/// has, below that width, bit `j` set exactly when an odd number of its
/// expressions have bit `j` set, and no bit set at or above it.
pub proof fn lemma_xor_expr_bits(vars: Map<Seq<char>, Data>, es: Vec<PASMExpr>)
    requires
        es.len() >= 2,
        eval(vars, es@[0]).width_ok(),
    ensures
        forall|j: int|
            0 <= j < usize::BITS ==> (((#[trigger] (eval(vars, PASMExpr::Xor(es)).value >> (j as usize))) & 1usize
                == 1usize) == (j < eval(vars, es@[0]).size && es@.filter(|e: PASMExpr| bit_set(vars, e, j)).len() % 2 == 1)),
{
    lemma_xor_fold_bits(vars, es@);
    let v = eval(vars, PASMExpr::Xor(es)).value;
    assert(v == fold_xor(vars, es@).value);
    assert forall|j: int| 0 <= j < usize::BITS implies (((#[trigger] (v >> (j as usize))) & 1usize == 1usize) == (j
        < eval(vars, es@[0]).size && es@.filter(|e: PASMExpr| bit_set(vars, e, j)).len() % 2 == 1)) by {
        assert(((fold_xor(vars, es@).value >> (j as usize)) & 1usize == 1usize) == (j < eval(vars, es@[0]).size
            && es@.filter(|e: PASMExpr| bit_set(vars, e, j)).len() % 2 == 1));
    }
}

/// A NOT expression keeps the width of its expression, inverts each of its
/// bits below that width, and sets none at or above it.
pub proof fn lemma_not_expr_bits(vars: Map<Seq<char>, Data>, x: Box<PASMExpr>)
    requires
        eval(vars, *x).width_ok(),
    ensures
        eval(vars, PASMExpr::Not(x)).size == eval(vars, *x).size,
        forall|j: int|
            0 <= j < usize::BITS ==> (((#[trigger] (eval(vars, PASMExpr::Not(x)).value >> (j as usize))) & 1usize
                == 1usize) == (j < eval(vars, *x).size && !bit_set(vars, *x, j))),
{
    let d = eval(vars, *x);
    let v = eval(vars, PASMExpr::Not(x)).value;
    assert forall|j: int| 0 <= j < usize::BITS implies (((#[trigger] (v >> (j as usize))) & 1usize == 1usize) == (j
        < d.size && !bit_set(vars, *x, j))) by {
        lemma_low_bits(d.value, d.size, j as usize);
    }
}

} // verus!
