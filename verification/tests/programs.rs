use logix::sim::primitives::data::Data;
use logix::sim::primitives::pasm::{PASMCommand, PASMExpr, PASM, ProgramUpdateType as PasmUpdateType};
use logix::sim::primitives::prim_program::{PrimCommand, PrimExpr, PrimProgram, ProgramUpdateType};

fn s(x: &str) -> String {
    x.to_string()
}

#[test]
fn prim_program_evaluates_expressions() {
    let p = PrimProgram::new(ProgramUpdateType::Always, vec![])
        .with_default_vars(vec![(s("a"), Data::high()), (s("b"), Data::low()), (s("a"), Data::low())]);
    assert_eq!(p.var("a"), Some(Data::low()));
    assert_eq!(p.var("c"), None);
    let e = PrimExpr::Or(vec![PrimExpr::Var(s("a")), PrimExpr::Not(Box::new(PrimExpr::Var(s("b"))))]);
    assert_eq!(p.eval_expr(&e).value, 1);
    let bv = PrimExpr::BitVec(vec![
        PrimExpr::Const(Data::high()),
        PrimExpr::Const(Data::low()),
        PrimExpr::Const(Data::high()),
    ]);
    assert_eq!(p.eval_expr(&bv), Data::new(0b101, 3));
    let x = PrimExpr::Xor(vec![PrimExpr::Const(Data::high()), PrimExpr::Const(Data::high())]);
    assert_eq!(p.eval_expr(&x).value, 0);
    let n = PrimExpr::Nand(vec![PrimExpr::Const(Data::high()), PrimExpr::Const(Data::high())]);
    assert_eq!(p.eval_expr(&n), Data::low());
    let n = PrimExpr::Nand(vec![PrimExpr::Const(Data::high()), PrimExpr::Const(Data::low())]);
    assert_eq!(p.eval_expr(&n), Data::high());
    let o = PrimExpr::Nor(vec![PrimExpr::Const(Data::low()), PrimExpr::Const(Data::low())]);
    assert_eq!(p.eval_expr(&o), Data::high());
    let o = PrimExpr::Nor(vec![PrimExpr::Const(Data::low()), PrimExpr::Const(Data::high())]);
    assert_eq!(p.eval_expr(&o), Data::low());
}

#[test]
fn prim_program_runs_until_it_waits() {
    // x = 1; label top; compare x with 1; if equal jump to done; x = 0; label done; wait 10
    let cmds = vec![
        PrimCommand::Mov { name: s("x"), value: PrimExpr::Const(Data::high()) },
        PrimCommand::Label { name: s("top") },
        PrimCommand::Cmp { v1: PrimExpr::Var(s("x")), v2: PrimExpr::Const(Data::high()) },
        PrimCommand::Je { label: s("done") },
        PrimCommand::Mov { name: s("x"), value: PrimExpr::Const(Data::low()) },
        PrimCommand::Label { name: s("done") },
        PrimCommand::Wait { time: 10 },
        PrimCommand::Goto { label: s("top") },
    ];
    let mut p = PrimProgram::new(ProgramUpdateType::InputChanges, cmds);
    let stopped = p.run(100, 100);
    assert!(stopped);
    assert_eq!(p.var("x"), Some(Data::high()));
    assert_eq!(p.state.pc, 6);
    assert_eq!(p.state.waiting_from, Some(100));
    // Too early: still waiting.
    assert!(p.run(105, 100));
    assert_eq!(p.state.pc, 6);
    // The wait is over: the program goes on and comes back to the wait.
    assert!(p.run(110, 100));
    assert_eq!(p.state.pc, 0);
    assert_eq!(p.state.waiting_from, None);
}

#[test]
fn prim_program_step_limit() {
    let cmds = vec![
        PrimCommand::Label { name: s("a") },
        PrimCommand::Goto { label: s("a") },
        PrimCommand::Label { name: s("b") },
    ];
    let mut p = PrimProgram::new(ProgramUpdateType::Always, cmds);
    assert!(!p.run(0, 5));
}

#[test]
fn pasm_flags_and_jumps() {
    let mut p = PASM::new(PasmUpdateType::Always, vec![]);
    p.set_flag(3, true);
    assert!(p.flag_at(3));
    assert!(!p.flag_at(2));
    p.set_flag(3, false);
    assert!(!p.flag_at(3));

    let cmds = vec![
        PASMCommand::Mov { name: s("y"), value: PASMExpr::Const(Data::new(2, 2)) },
        PASMCommand::Cmp { v1: PASMExpr::Var(s("y")), v2: PASMExpr::Const(Data::new(3, 2)) },
        PASMCommand::Jl { label: s("less") },
        PASMCommand::Mov { name: s("r"), value: PASMExpr::Const(Data::low()) },
        PASMCommand::Goto { label: s("end") },
        PASMCommand::Label { name: s("less") },
        PASMCommand::Mov { name: s("r"), value: PASMExpr::Const(Data::high()) },
        PASMCommand::Label { name: s("end") },
        PASMCommand::Wait { time: 1 },
    ];
    let mut p = PASM::new(PasmUpdateType::Always, cmds);
    assert!(p.run(0, 50));
    assert_eq!(p.var("r"), Some(Data::high()));
    let e = PASMExpr::And(vec![PASMExpr::Var(s("r")), PASMExpr::Const(Data::high())]);
    assert_eq!(p.eval_expr(&e).value, 1);
}

fn pasm_after(cmds: Vec<PASMCommand>) -> PASM {
    let mut p = PASM::new(PasmUpdateType::Always, cmds);
    assert!(p.run(0, 50));
    p
}

fn jump_over(v1: Data, v2: Data, jump: PASMCommand) -> Option<Data> {
    pasm_after(vec![
        PASMCommand::Cmp { v1: PASMExpr::Const(v1), v2: PASMExpr::Const(v2) },
        jump,
        PASMCommand::Mov { name: s("r"), value: PASMExpr::Const(Data::high()) },
        PASMCommand::Label { name: s("end") },
    ])
    .var("r")
}

#[test]
fn pasm_equal_values_clear_both_flags() {
    let p = pasm_after(vec![
        PASMCommand::Cmp { v1: PASMExpr::Const(Data::high()), v2: PASMExpr::Const(Data::high()) },
        PASMCommand::Label { name: s("end") },
    ]);
    assert_eq!(p.state.flags & 0b01, 0);
    assert_eq!(p.state.flags & 0b10, 0);
    assert_eq!(p.state.pc, 0);
    let p = pasm_after(vec![
        PASMCommand::Cmp { v1: PASMExpr::Const(Data::low()), v2: PASMExpr::Const(Data::high()) },
        PASMCommand::Label { name: s("end") },
    ]);
    assert_eq!(p.state.flags, 0b11);
}

#[test]
fn pasm_jumps_follow_the_comparison() {
    let one = Data::new(1, 2);
    let two = Data::new(2, 2);
    let jg = || PASMCommand::Jg { label: s("end") };
    assert_eq!(jump_over(one, one, jg()), Some(Data::high()));
    assert_eq!(jump_over(two, one, jg()), None);
    assert_eq!(jump_over(one, two, jg()), Some(Data::high()));
    let je = || PASMCommand::Je { label: s("end") };
    assert_eq!(jump_over(one, one, je()), None);
    assert_eq!(jump_over(one, two, je()), Some(Data::high()));
    let jne = || PASMCommand::Jne { label: s("end") };
    assert_eq!(jump_over(one, two, jne()), None);
    assert_eq!(jump_over(one, one, jne()), Some(Data::high()));
    let jge = || PASMCommand::Jge { label: s("end") };
    assert_eq!(jump_over(one, one, jge()), None);
    assert_eq!(jump_over(two, one, jge()), None);
    assert_eq!(jump_over(one, two, jge()), Some(Data::high()));
    let jle = || PASMCommand::Jle { label: s("end") };
    assert_eq!(jump_over(one, one, jle()), None);
    assert_eq!(jump_over(one, two, jle()), None);
    assert_eq!(jump_over(two, one, jle()), Some(Data::high()));
}

#[test]
fn pasm_nand_and_nor_negate() {
    let p = PASM::new(PasmUpdateType::Always, vec![]);
    let n = PASMExpr::Nand(vec![PASMExpr::Const(Data::high()), PASMExpr::Const(Data::high())]);
    assert_eq!(p.eval_expr(&n), Data::low());
    let o = PASMExpr::Nor(vec![PASMExpr::Const(Data::low()), PASMExpr::Const(Data::low())]);
    assert_eq!(p.eval_expr(&o), Data::high());
    let o = PASMExpr::Nor(vec![PASMExpr::Const(Data::high()), PASMExpr::Const(Data::low())]);
    assert_eq!(p.eval_expr(&o), Data::low());
}
