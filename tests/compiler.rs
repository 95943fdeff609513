use bf::ast;
use bf::bytecode;
use bf::common::Command::{In, Right, Up};
use bf::common::Instruction;
use bf::jit::{plan, AbstractInterpreter, LoopBalance, LoopBalanceMap, Node};
use bf::peephole;
use bf::rle;
use peephole::Statement::Instr;

fn assert_compile(src: &[ast::Statement], expected: &[rle::Statement]) {
    let actual = rle::compile(&src_vec(src));
    assert_eq!(&actual[..], expected);
}

fn src_vec(src: &[ast::Statement]) -> Vec<ast::Statement> {
    src.iter().map(copy_stmt).collect()
}

fn copy_stmt(s: &ast::Statement) -> ast::Statement {
    match s {
        ast::Statement::Cmd(c) => ast::Statement::Cmd(*c),
        ast::Statement::Loop(b) => ast::Statement::Loop(src_vec(b)),
    }
}

fn peep(src: &str) -> Vec<peephole::Statement> {
    let program = ast::parse_program(src.as_bytes()).unwrap();
    let program = rle::compile(&program);
    peephole::compile(&program)
}

#[test]
fn compiler_right_compiles() {
    assert_compile(&[ast::Statement::Cmd(Right)], &[rle::Statement::Cmd(Right, 1)]);
}

#[test]
fn compiler_three_rights_compile() {
    assert_compile(
        &[ast::Statement::Cmd(Right), ast::Statement::Cmd(Right), ast::Statement::Cmd(Right)],
        &[rle::Statement::Cmd(Right, 3)],
    );
}

#[test]
fn compiler_two_rights_two_ups_compile() {
    assert_compile(
        &[
            ast::Statement::Cmd(Right),
            ast::Statement::Cmd(Right),
            ast::Statement::Cmd(Up),
            ast::Statement::Cmd(Up),
        ],
        &[rle::Statement::Cmd(Right, 2), rle::Statement::Cmd(Up, 2)],
    );
}

#[test]
fn compiler_loop_compiles() {
    assert_compile(
        &[
            ast::Statement::Cmd(In),
            ast::Statement::Loop(vec![ast::Statement::Cmd(Right)]),
            ast::Statement::Cmd(In),
        ],
        &[
            rle::Statement::Cmd(In, 1),
            rle::Statement::Loop(vec![rle::Statement::Cmd(Right, 1)]),
            rle::Statement::Cmd(In, 1),
        ],
    );
}

#[test]
fn loops_are_fusion_barriers() {
    let program = ast::parse_program(b"++[]++").unwrap();
    let actual = rle::compile(&program);
    assert_eq!(
        actual,
        vec![rle::Statement::Cmd(Up, 2), rle::Statement::Loop(vec![]), rle::Statement::Cmd(Up, 2)]
    );
}

#[test]
fn peephole_recognizes_set_zero_both_ways() {
    assert_eq!(peep("[-]"), vec![Instr(Instruction::SetZero)]);
    assert_eq!(peep("[+]"), vec![Instr(Instruction::SetZero)]);
}

#[test]
fn peephole_recognizes_find_zero() {
    assert_eq!(peep("[>>>]"), vec![Instr(Instruction::FindZeroRight(3))]);
    assert_eq!(peep("[<]"), vec![Instr(Instruction::FindZeroLeft(1))]);
}

#[test]
fn peephole_recognizes_offset_add() {
    assert_eq!(peep("[->>+<<]"), vec![Instr(Instruction::OffsetAddRight(2))]);
    assert_eq!(peep("[-<<<+>>>]"), vec![Instr(Instruction::OffsetAddLeft(3))]);
    assert_eq!(
        peep("[->>+<]"),
        vec![peephole::Statement::Loop(vec![
            Instr(Instruction::Add(255)),
            Instr(Instruction::Right(2)),
            Instr(Instruction::Add(1)),
            Instr(Instruction::Left(1)),
        ])]
    );
}

#[test]
fn peephole_normalizes_runs() {
    assert_eq!(
        peep("---,,>"),
        vec![
            Instr(Instruction::Add(253)),
            Instr(Instruction::In),
            Instr(Instruction::In),
            Instr(Instruction::Right(1)),
        ]
    );
    let down256 = "-".repeat(256);
    assert_eq!(peep(&down256), vec![Instr(Instruction::Add(0))]);
}

#[test]
fn bytecode_jumps_are_paired() {
    let code = bytecode::compile(&peep("+[>+[.-]<-]"));
    assert_eq!(
        code,
        vec![
            Instruction::Add(1),
            Instruction::JumpZero(10),
            Instruction::Right(1),
            Instruction::Add(1),
            Instruction::JumpZero(7),
            Instruction::Out,
            Instruction::Add(255),
            Instruction::JumpNotZero(4),
            Instruction::Left(1),
            Instruction::Add(255),
            Instruction::JumpNotZero(1),
        ]
    );
    for (b, ins) in code.iter().enumerate() {
        if let Instruction::JumpZero(e) = ins {
            assert_eq!(code[*e], Instruction::JumpNotZero(b));
        }
        if let Instruction::JumpNotZero(e) = ins {
            assert_eq!(code[*e], Instruction::JumpZero(b));
        }
    }
}

#[test]
fn usize_to_count_is_identity() {
    assert_eq!(bytecode::usize_to_count(12345), 12345);
}

#[test]
fn loop_balances_in_program_order() {
    let program = peep("[<<[<]][<[-]>][>[>]]+[>>[<]]");
    let lbm = LoopBalanceMap::new(&program);
    assert_eq!(lbm.get(0), LoopBalance::LeftOnly);
    assert_eq!(lbm.get(1), LoopBalance::Exact(0));
    assert_eq!(lbm.get(2), LoopBalance::RightOnly);
    assert_eq!(lbm.get(3), LoopBalance::Unknown);
    assert_eq!(lbm.get(4), LoopBalance::Unknown);
    let nested = LoopBalanceMap::new(&peep("[>[.>]<]"));
    assert_eq!(nested.get(0), LoopBalance::Unknown);
    assert_eq!(nested.get(1), LoopBalance::Exact(1));
}

#[test]
fn loop_balance_predicates() {
    assert!(LoopBalance::Exact(0).is_balanced());
    assert!(!LoopBalance::Exact(2).is_balanced());
    assert!(LoopBalance::Exact(2).is_right_only());
    assert!(!LoopBalance::Exact(2).is_left_only());
    assert!(LoopBalance::Exact(-2).is_left_only());
    assert!(LoopBalance::RightOnly.is_right_only());
    assert!(!LoopBalance::Unknown.is_right_only());
    assert!(!LoopBalance::Unknown.is_left_only());
}

#[test]
fn abstract_interpreter_tracks_marks() {
    let program = peep(">");
    let mut a = AbstractInterpreter::new(&program);
    assert!(!a.move_right(3));
    assert!(a.check_left(3));
    assert!(!a.check_left(4));
    assert!(a.move_left(2));
    assert!(a.check_right(2));
    assert!(a.move_right(2));
    assert!(!a.check_right(1));
    a.reset_left();
    assert!(!a.check_left(1));
}

#[test]
fn abstract_interpreter_loops_restore_marks() {
    let program = peep("[>>.]");
    let mut a = AbstractInterpreter::new(&program);
    a.move_right(5);
    a.move_left(2);
    a.enter_loop();
    assert!(a.check_left(3));
    assert!(!a.check_right(1));
    a.move_right(1);
    a.leave_loop();
    assert!(a.check_left(3));
    assert!(!a.check_left(4));
}

#[test]
fn plan_omits_proven_guards() {
    let program = peep(">><<<");
    let checked = plan(&program, true);
    assert_eq!(
        checked,
        vec![Node::Instr(Instruction::Right(2), true), Node::Instr(Instruction::Left(3), true)]
    );
    let program = peep(">>><<>");
    let checked = plan(&program, true);
    assert_eq!(
        checked,
        vec![
            Node::Instr(Instruction::Right(3), true),
            Node::Instr(Instruction::Left(2), false),
            Node::Instr(Instruction::Right(1), false),
        ]
    );
    let unchecked = plan(&program, false);
    assert!(unchecked.iter().all(|n| matches!(n, Node::Instr(_, false))));
}

#[test]
fn plan_guards_scans_and_keeps_loops() {
    let program = peep(">[<]+[>.<-]");
    let checked = plan(&program, true);
    assert_eq!(
        checked,
        vec![
            Node::Instr(Instruction::Right(1), true),
            Node::Instr(Instruction::FindZeroLeft(1), true),
            Node::Instr(Instruction::Add(1), false),
            Node::Loop(vec![
                Node::Instr(Instruction::Right(1), true),
                Node::Instr(Instruction::Out, false),
                Node::Instr(Instruction::Left(1), false),
                Node::Instr(Instruction::Add(255), false),
            ]),
        ]
    );
}

#[test]
fn offset_add_leaves_marks_unchanged() {
    let program = peep(">>[->+<]>");
    assert_eq!(
        plan(&program, true),
        vec![
            Node::Instr(Instruction::Right(2), true),
            Node::Instr(Instruction::OffsetAddRight(1), true),
            Node::Instr(Instruction::Right(1), true),
        ]
    );
    let program = peep("[-<+>]<");
    assert_eq!(
        plan(&program, true),
        vec![
            Node::Instr(Instruction::OffsetAddLeft(1), true),
            Node::Instr(Instruction::Left(1), true),
        ]
    );
    let program = peep(">>><<[->+<]");
    assert_eq!(
        plan(&program, true),
        vec![
            Node::Instr(Instruction::Right(3), true),
            Node::Instr(Instruction::Left(2), false),
            Node::Instr(Instruction::OffsetAddRight(1), false),
        ]
    );
}
