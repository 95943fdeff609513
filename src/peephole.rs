//! The peephole pass: run-length encoded trees become trees of instructions,
//! and common loop forms become single instructions.
//!
//! | loop body (after the pass)        | instruction          |
//! |-----------------------------------|----------------------|
//! | `Add(1)` or `Add(255)`            | `SetZero`            |
//! | `Right(n)`                        | `FindZeroRight(n)`   |
//! | `Left(n)`                         | `FindZeroLeft(n)`    |
//! | `Add(255) Right(n) Add(1) Left(n)` | `OffsetAddRight(n)` |
//! | `Add(255) Left(n) Add(1) Right(n)` | `OffsetAddLeft(n)`  |

use vstd::prelude::*;

use crate::common::{BfResult, Command, Error, Instruction};
use crate::rle;
use crate::rts::RtsState;
use crate::state::{agrees, machine, reports, wrapping_add, Machine, Outcome, State};
use crate::traits::Interpretable;

verus! {

/// A statement of the peephole tree.
#[derive(Debug, PartialEq, Eq)]
pub enum Statement {
    /// An instruction other than a jump.
    Instr(Instruction),
    /// A loop around a sequence of statements.
    Loop(Vec<Statement>),
}

/// The shape of a peephole tree, as a mathematical value.
pub enum Tree {
    Op(Instruction),
    Block(Seq<Tree>),
}

/// The shape of a statement.
pub open spec fn tree(st: Statement) -> Tree
    decreases st,
{
    match st {
        Statement::Instr(i) => Tree::Op(i),
        Statement::Loop(body) => Tree::Block(trees(body@)),
    }
}

/// The shapes of a sequence of statements.
pub open spec fn trees(p: Seq<Statement>) -> Seq<Tree>
    decreases p,
{
    if p.len() == 0 {
        Seq::empty()
    } else {
        trees(p.subrange(0, p.len() - 1)).push(tree(p[p.len() - 1]))
    }
}

/// Every instruction is a tree instruction, in every loop body.
pub open spec fn wf_stmt(st: Statement) -> bool
    decreases st,
{
    match st {
        Statement::Instr(i) => i.tree_wf(),
        Statement::Loop(body) => wf(body@),
    }
}

/// Every statement is well formed.
pub open spec fn wf(p: Seq<Statement>) -> bool
    decreases p,
{
    p.len() > 0 ==> wf(p.subrange(0, p.len() - 1)) && wf_stmt(p[p.len() - 1])
}

/// The instructions that a repeated command becomes.
pub open spec fn lower(c: Command, n: nat) -> Seq<Tree> {
    match c {
        Command::Right => seq![Tree::Op(Instruction::Right(n as usize))],
        Command::Left => seq![Tree::Op(Instruction::Left(n as usize))],
        Command::Up => seq![Tree::Op(Instruction::Add((n % 256) as u8))],
        Command::Down => seq![Tree::Op(Instruction::Add(((256 - n % 256) % 256) as u8))],
        Command::In => Seq::new(n, |i: int| Tree::Op(Instruction::In)),
        Command::Out => Seq::new(n, |i: int| Tree::Op(Instruction::Out)),
        _ => Seq::empty(),
    }
}

/// `[-]` and `[+]`.
pub open spec fn set_zero_form(body: Seq<Tree>) -> Option<Instruction> {
    if body == seq![Tree::Op(Instruction::Add(1))] || body == seq![Tree::Op(Instruction::Add(255))] {
        Some(Instruction::SetZero)
    } else {
        None
    }
}

/// `[>…>]` and `[<…<]`.
pub open spec fn find_zero_form(body: Seq<Tree>) -> Option<Instruction> {
    if body.len() == 1 {
        match body[0] {
            Tree::Op(Instruction::Right(n)) => Some(Instruction::FindZeroRight(n)),
            Tree::Op(Instruction::Left(n)) => Some(Instruction::FindZeroLeft(n)),
            _ => None,
        }
    } else {
        None
    }
}

/// `[->…>+<…<]` and `[-<…<+>…>]`, the same distance both ways.
pub open spec fn offset_add_form(body: Seq<Tree>) -> Option<Instruction> {
    if body.len() == 4 && body[0] == Tree::Op(Instruction::Add(255)) && body[2] == Tree::Op(
        Instruction::Add(1),
    ) {
        match (body[1], body[3]) {
            (Tree::Op(Instruction::Right(a)), Tree::Op(Instruction::Left(b))) => if a == b {
                Some(Instruction::OffsetAddRight(a))
            } else {
                None
            },
            (Tree::Op(Instruction::Left(a)), Tree::Op(Instruction::Right(b))) => if a == b {
                Some(Instruction::OffsetAddLeft(a))
            } else {
                None
            },
            _ => None,
        }
    } else {
        None
    }
}

/// What a loop with the given (already rewritten) body becomes.
pub open spec fn rewrite(body: Seq<Tree>) -> Tree {
    if let Some(i) = set_zero_form(body) {
        Tree::Op(i)
    } else if let Some(i) = find_zero_form(body) {
        Tree::Op(i)
    } else if let Some(i) = offset_add_form(body) {
        Tree::Op(i)
    } else {
        Tree::Block(body)
    }
}

/// The peephole form of a run-length encoded statement.
pub open spec fn optimize_stmt(st: rle::Statement) -> Seq<Tree>
    decreases st,
{
    match st {
        rle::Statement::Cmd(c, n) => lower(c, n as nat),
        rle::Statement::Loop(body) => seq![rewrite(optimize(body@))],
    }
}

/// The peephole form of a run-length encoded sequence.
pub open spec fn optimize(p: Seq<rle::Statement>) -> Seq<Tree>
    decreases p,
{
    if p.len() == 0 {
        Seq::empty()
    } else {
        optimize(p.subrange(0, p.len() - 1)) + optimize_stmt(p[p.len() - 1])
    }
}

proof fn lemma_trees_push(p: Seq<Statement>, st: Statement)
    ensures
        trees(p.push(st)) == trees(p).push(tree(st)),
        wf(p.push(st)) == (wf(p) && wf_stmt(st)),
{
    assert(p.push(st).subrange(0, p.len() as int) =~= p);
}

proof fn lemma_optimize_take(p: Seq<rle::Statement>, i: int)
    requires
        0 <= i < p.len(),
    ensures
        optimize(p.take(i + 1)) == optimize(p.take(i)) + optimize_stmt(p[i]),
{
    assert(p.take(i + 1).subrange(0, i) =~= p.take(i));
}

/// `SetZero` when the body is `[Add(1)]` or `[Add(255)]`.
pub fn set_zero_peephole(body: &Vec<Statement>) -> (r: Option<Instruction>)
    ensures
        r == set_zero_form(trees(body@)),
        r matches Some(i) ==> i.tree_wf(),
{
    proof {
        lemma_trees_len(body@);
        if body@.len() == 1 {
            lemma_trees_index(body@, 0);
            let t = trees(body@);
            if t[0] == Tree::Op(Instruction::Add(1)) {
                assert(t =~= seq![Tree::Op(Instruction::Add(1))]);
            }
            if t[0] == Tree::Op(Instruction::Add(255)) {
                assert(t =~= seq![Tree::Op(Instruction::Add(255))]);
            }
        }
    }
    if body.len() == 1 {
        match &body[0] {
            Statement::Instr(Instruction::Add(k)) => if *k == 1 || *k == 255 {
                return Some(Instruction::SetZero);
            },
            _ => {},
        }
    }
    None
}

proof fn lemma_wf_index(p: Seq<Statement>, i: int)
    requires
        wf(p),
        0 <= i < p.len(),
    ensures
        wf_stmt(p[i]),
    decreases p.len(),
{
    if i < p.len() - 1 {
        lemma_wf_index(p.subrange(0, p.len() - 1), i);
    }
}

proof fn lemma_trees_len(p: Seq<Statement>)
    ensures
        trees(p).len() == p.len(),
    decreases p.len(),
{
    if p.len() > 0 {
        lemma_trees_len(p.subrange(0, p.len() - 1));
    }
}

proof fn lemma_trees_index(p: Seq<Statement>, i: int)
    requires
        0 <= i < p.len(),
    ensures
        trees(p)[i] == tree(p[i]),
        trees(p).len() == p.len(),
    decreases p.len(),
{
    lemma_trees_len(p);
    if i < p.len() - 1 {
        lemma_trees_index(p.subrange(0, p.len() - 1), i);
    }
}

/// `FindZeroRight(n)` or `FindZeroLeft(n)` when the body is one move.
pub fn find_zero_peephole(body: &Vec<Statement>) -> (r: Option<Instruction>)
    ensures
        r == find_zero_form(trees(body@)),
        wf(body@) ==> (r matches Some(i) ==> i.tree_wf()),
{
    proof {
        lemma_trees_len(body@);
        if body@.len() == 1 {
            lemma_trees_index(body@, 0);
            if wf(body@) {
                lemma_wf_index(body@, 0);
            }
        }
    }
    if body.len() == 1 {
        match &body[0] {
            Statement::Instr(Instruction::Right(n)) => {
                return Some(Instruction::FindZeroRight(*n));
            },
            Statement::Instr(Instruction::Left(n)) => {
                return Some(Instruction::FindZeroLeft(*n));
            },
            _ => {},
        }
    }
    None
}

/// `OffsetAddRight(n)` or `OffsetAddLeft(n)` for the two transfer loops.
pub fn offset_add_peephole(body: &Vec<Statement>) -> (r: Option<Instruction>)
    ensures
        r == offset_add_form(trees(body@)),
        wf(body@) ==> (r matches Some(i) ==> i.tree_wf()),
{
    proof {
        lemma_trees_len(body@);
        if body@.len() == 4 {
            lemma_trees_index(body@, 0);
            lemma_trees_index(body@, 1);
            lemma_trees_index(body@, 2);
            lemma_trees_index(body@, 3);
            if wf(body@) {
                lemma_wf_index(body@, 1);
            }
        }
    }
    if body.len() != 4 {
        return None;
    }
    match (&body[0], &body[1], &body[2], &body[3]) {
        (
            Statement::Instr(Instruction::Add(255)),
            Statement::Instr(Instruction::Right(a)),
            Statement::Instr(Instruction::Add(1)),
            Statement::Instr(Instruction::Left(b)),
        ) => if *a == *b {
            Some(Instruction::OffsetAddRight(*a))
        } else {
            None
        },
        (
            Statement::Instr(Instruction::Add(255)),
            Statement::Instr(Instruction::Left(a)),
            Statement::Instr(Instruction::Add(1)),
            Statement::Instr(Instruction::Right(b)),
        ) => if *a == *b {
            Some(Instruction::OffsetAddLeft(*a))
        } else {
            None
        },
        _ => None,
    }
}

/// Peephole-optimizes a run-length encoded tree.
pub fn compile(src: &Vec<rle::Statement>) -> (r: Vec<Statement>)
    requires
        rle::wf(src@),
    ensures
        trees(r@) == optimize(src@),
        wf(r@),
    decreases src,
{
    let mut out: Vec<Statement> = Vec::new();
    let mut i: usize = 0;
    assert(src@.take(0) =~= Seq::<rle::Statement>::empty());
    assert(trees(out@) =~= optimize(src@.take(0)));
    while i < src.len()
        invariant
            i <= src.len(),
            rle::wf(src@),
            trees(out@) == optimize(src@.take(i as int)),
            wf(out@),
        decreases src.len() - i,
    {
        proof {
            lemma_optimize_take(src@, i as int);
            rle::lemma_wf_index(src@, i as int);
        }
        let ghost before = trees(out@);
        match &src[i] {
            rle::Statement::Cmd(c, n) => {
                let n = *n;
                match c {
                    Command::Right => push(&mut out, Instruction::Right(n)),
                    Command::Left => push(&mut out, Instruction::Left(n)),
                    Command::Up => push(&mut out, Instruction::Add((n % 256) as u8)),
                    Command::Down => push(&mut out, Instruction::Add(((256 - n % 256) % 256) as u8)),
                    Command::In | Command::Out => {
                        let ins = if *c == Command::In {
                            Instruction::In
                        } else {
                            Instruction::Out
                        };
                        let mut j: usize = 0;
                        while j < n
                            invariant
                                j <= n,
                                trees(out@) == before + Seq::new(j as nat, |k: int| Tree::Op(ins)),
                                wf(out@),
                                ins.tree_wf(),
                            decreases n - j,
                        {
                            push(&mut out, ins);
                            j = j + 1;
                            assert(trees(out@) =~= before + Seq::new(j as nat, |k: int| Tree::Op(ins)));
                        }
                        assert(optimize_stmt(src@[i as int]) =~= Seq::new(n as nat, |k: int| Tree::Op(ins)));
                    },
                    _ => {},
                }
                assert(trees(out@) =~= before + optimize_stmt(src@[i as int]));
            },
            rle::Statement::Loop(b) => {
                let body = compile(b);
                let mut found = set_zero_peephole(&body);
                if found.is_none() {
                    found = find_zero_peephole(&body);
                }
                if found.is_none() {
                    found = offset_add_peephole(&body);
                }
                match found {
                    Some(ins) => push(&mut out, ins),
                    None => {
                        let st = Statement::Loop(body);
                        proof {
                            lemma_trees_push(out@, st);
                        }
                        out.push(st);
                    },
                }
                assert(trees(out@) =~= before + optimize_stmt(src@[i as int]));
            },
        }
        i = i + 1;
    }
    assert(src@.take(src.len() as int) =~= src@);
    out
}

fn push(out: &mut Vec<Statement>, ins: Instruction)
    ensures
        trees(final(out)@) == trees(old(out)@).push(Tree::Op(ins)),
        wf(final(out)@) == (wf(old(out)@) && ins.tree_wf()),
{
    proof {
        lemma_trees_push(old(out)@, Statement::Instr(ins));
    }
    out.push(Statement::Instr(ins));
}

/// The effect of one instruction (a jump has none outside flat bytecode).
pub open spec fn step_instr(ins: Instruction, m: Machine) -> Outcome {
    match ins {
        Instruction::Left(n) => m.move_left(n as int),
        Instruction::Right(n) => m.move_right(n as int),
        Instruction::Add(k) => Outcome::Done(m.add(k)),
        Instruction::In => Outcome::Done(m.read()),
        Instruction::Out => Outcome::Done(m.write()),
        Instruction::SetZero => Outcome::Done(m.set(0)),
        Instruction::OffsetAddRight(n) => m.offset_add_right(n as int),
        Instruction::OffsetAddLeft(n) => m.offset_add_left(n as int),
        Instruction::FindZeroRight(n) => m.find_zero_right(n as int),
        Instruction::FindZeroLeft(n) => m.find_zero_left(n as int),
        Instruction::JumpZero(_) => Outcome::Done(m),
        Instruction::JumpNotZero(_) => Outcome::Done(m),
    }
}

/// Executes one tree instruction on a tape and a pair of channels.
pub fn execute(ins: Instruction, state: &mut State, rts: &mut RtsState) -> (r: BfResult<()>)
    requires
        old(state).wf(),
        ins.tree_wf(),
    ensures
        final(state).wf(),
        reports(
            step_instr(ins, machine(*old(state), *old(rts))),
            Some(r),
            machine(*final(state), *final(rts)),
        ),
{
    let ghost m0 = machine(*state, *rts);
    match ins {
        Instruction::Left(n) => state.left(n),
        Instruction::Right(n) => state.right(n),
        Instruction::Add(k) => {
            state.up(k);
            Ok(())
        },
        Instruction::In => {
            state.read(rts);
            Ok(())
        },
        Instruction::Out => {
            state.write(rts);
            Ok(())
        },
        Instruction::SetZero => {
            state.store(0);
            Ok(())
        },
        Instruction::OffsetAddRight(n) => {
            let value = state.load();
            if value != 0 {
                match state.up_pos_offset(n, value) {
                    Ok(()) => {
                        state.store(0);
                        assert(state.cells() =~= m0.set(0).tape.update(
                            m0.pos + n,
                            wrapping_add(m0.tape[m0.pos + n], value),
                        ));
                        Ok(())
                    },
                    Err(e) => {
                        state.store(value.wrapping_sub(1));
                        assert(value.wrapping_sub(1) == wrapping_add(value, 255));
                        assert(state.cells() =~= m0.add(255).tape);
                        Err(e)
                    },
                }
            } else {
                Ok(())
            }
        },
        Instruction::OffsetAddLeft(n) => {
            let value = state.load();
            if value != 0 {
                match state.up_neg_offset(n, value) {
                    Ok(()) => {
                        state.store(0);
                        assert(state.cells() =~= m0.set(0).tape.update(
                            m0.pos - n,
                            wrapping_add(m0.tape[m0.pos - n], value),
                        ));
                        Ok(())
                    },
                    Err(e) => {
                        state.store(value.wrapping_sub(1));
                        assert(value.wrapping_sub(1) == wrapping_add(value, 255));
                        assert(state.cells() =~= m0.add(255).tape);
                        Err(e)
                    },
                }
            } else {
                Ok(())
            }
        },
        Instruction::FindZeroRight(n) => {
            loop
                invariant
                    m0 == machine(*old(state), *old(rts)),
                    step_instr(ins, m0) == m0.find_zero_right(n as int),
                    n >= 1,
                    state.wf(),
                    m0.find_zero_right(n as int) == machine(*state, *rts).find_zero_right(n as int),
                decreases state.cells().len() - state.pos(),
            {
                if state.load() == 0 {
                    return Ok(());
                }
                match state.right(n) {
                    Ok(()) => {},
                    Err(e) => {
                        return Err(e);
                    },
                }
            }
        },
        Instruction::FindZeroLeft(n) => {
            loop
                invariant
                    m0 == machine(*old(state), *old(rts)),
                    step_instr(ins, m0) == m0.find_zero_left(n as int),
                    n >= 1,
                    state.wf(),
                    m0.find_zero_left(n as int) == machine(*state, *rts).find_zero_left(n as int),
                decreases state.pos(),
            {
                if state.load() == 0 {
                    return Ok(());
                }
                match state.left(n) {
                    Ok(()) => {},
                    Err(e) => {
                        return Err(e);
                    },
                }
            }
        },
        _ => Ok(()),
    }
}

/// Runs one statement; a loop may repeat its body at most `fuel` times, and
/// each repetition runs with one unit less.
pub open spec fn run_stmt(st: Statement, m: Machine, fuel: nat) -> Outcome
    decreases fuel, st,
{
    match st {
        Statement::Instr(i) => step_instr(i, m),
        Statement::Loop(body) => run_loop(body@, m, fuel),
    }
}

/// Runs statements in order, stopping at the first that does not finish.
pub open spec fn run_seq(p: Seq<Statement>, m: Machine, fuel: nat) -> Outcome
    decreases fuel, p,
{
    if p.len() == 0 {
        Outcome::Done(m)
    } else {
        match run_stmt(p[0], m, fuel) {
            Outcome::Done(next) => run_seq(p.subrange(1, p.len() as int), next, fuel),
            other => other,
        }
    }
}

/// Repeats a loop body while the current cell is nonzero.
pub open spec fn run_loop(body: Seq<Statement>, m: Machine, fuel: nat) -> Outcome
    decreases fuel, body,
{
    if m.cell() == 0 {
        Outcome::Done(m)
    } else if fuel == 0 {
        Outcome::OutOfFuel
    } else {
        match run_seq(body, m, (fuel - 1) as nat) {
            Outcome::Done(next) => run_loop(body, next, (fuel - 1) as nat),
            other => other,
        }
    }
}

proof fn lemma_run_seq_step(p: Seq<Statement>, i: int, m: Machine, fuel: nat)
    requires
        0 <= i < p.len(),
    ensures
        run_seq(p.subrange(i, p.len() as int), m, fuel) == match run_stmt(p[i], m, fuel) {
            Outcome::Done(next) => run_seq(p.subrange(i + 1, p.len() as int), next, fuel),
            other => other,
        },
{
    let s = p.subrange(i, p.len() as int);
    assert(s.subrange(1, s.len() as int) =~= p.subrange(i + 1, p.len() as int));
}

fn interpret_statement(st: &Statement, state: &mut State, rts: &mut RtsState, fuel: u64) -> (r:
    Option<BfResult<()>>)
    requires
        old(state).wf(),
        wf_stmt(*st),
    ensures
        final(state).wf(),
        reports(
            run_stmt(*st, machine(*old(state), *old(rts)), fuel as nat),
            r,
            machine(*final(state), *final(rts)),
        ),
    decreases fuel, st,
{
    match st {
        Statement::Instr(i) => Some(execute(*i, state, rts)),
        Statement::Loop(body) => {
            let ghost m0 = machine(*state, *rts);
            let mut f: u64 = fuel;
            loop
                invariant
                    m0 == machine(*old(state), *old(rts)),
                    run_stmt(*st, m0, fuel as nat) == run_loop(body@, m0, fuel as nat),
                    f <= fuel,
                    state.wf(),
                    wf(body@),
                    run_loop(body@, m0, fuel as nat) == run_loop(
                        body@,
                        machine(*state, *rts),
                        f as nat,
                    ),
                decreases f,
            {
                if state.load() == 0 {
                    return Some(Ok(()));
                }
                if f == 0 {
                    return None;
                }
                f = f - 1;
                match interpret(body, state, rts, f) {
                    Some(Ok(())) => {},
                    other => {
                        return other;
                    },
                }
            }
        },
    }
}

fn interpret(program: &Vec<Statement>, state: &mut State, rts: &mut RtsState, fuel: u64) -> (r:
    Option<BfResult<()>>)
    requires
        old(state).wf(),
        wf(program@),
    ensures
        final(state).wf(),
        reports(
            run_seq(program@, machine(*old(state), *old(rts)), fuel as nat),
            r,
            machine(*final(state), *final(rts)),
        ),
    decreases fuel, program,
{
    let ghost m0 = machine(*state, *rts);
    let mut i: usize = 0;
    assert(program@.subrange(0, program@.len() as int) =~= program@);
    while i < program.len()
        invariant
            m0 == machine(*old(state), *old(rts)),
            i <= program.len(),
            state.wf(),
            wf(program@),
            run_seq(program@, m0, fuel as nat) == run_seq(
                program@.subrange(i as int, program@.len() as int),
                machine(*state, *rts),
                fuel as nat,
            ),
        decreases program.len() - i,
    {
        proof {
            lemma_run_seq_step(program@, i as int, machine(*state, *rts), fuel as nat);
            lemma_wf_index(program@, i as int);
        }
        match interpret_statement(&program[i], state, rts, fuel) {
            Some(Ok(())) => {},
            other => {
                return other;
            },
        }
        i = i + 1;
    }
    Some(Ok(()))
}

impl Interpretable for Vec<Statement> {
    open spec fn runnable(&self) -> bool {
        wf(self@)
    }

    open spec fn outcome(&self, m: Machine, fuel: nat) -> Outcome {
        run_seq(self@, m, fuel)
    }

    fn interpret_state(&self, state: &mut State, rts: &mut RtsState, fuel: u64) -> (r: Option<
        BfResult<()>,
    >) {
        interpret(self, state, rts, fuel)
    }
}

/// Runs one tree, as [`run_stmt`] runs a statement.
pub open spec fn run_tree(t: Tree, m: Machine, fuel: nat) -> Outcome
    decreases fuel, t,
{
    match t {
        Tree::Op(i) => step_instr(i, m),
        Tree::Block(body) => run_tree_loop(body, m, fuel),
    }
}

/// Runs a sequence of trees, as [`run_seq`] runs statements.
pub open spec fn run_trees(p: Seq<Tree>, m: Machine, fuel: nat) -> Outcome
    decreases fuel, p,
{
    if p.len() == 0 {
        Outcome::Done(m)
    } else {
        match run_tree(p[0], m, fuel) {
            Outcome::Done(next) => run_trees(p.subrange(1, p.len() as int), next, fuel),
            other => other,
        }
    }
}

/// Repeats a loop body of trees, as [`run_loop`] does.
pub open spec fn run_tree_loop(body: Seq<Tree>, m: Machine, fuel: nat) -> Outcome
    decreases fuel, body,
{
    if m.cell() == 0 {
        Outcome::Done(m)
    } else if fuel == 0 {
        Outcome::OutOfFuel
    } else {
        match run_trees(body, m, (fuel - 1) as nat) {
            Outcome::Done(next) => run_tree_loop(body, next, (fuel - 1) as nat),
            other => other,
        }
    }
}

/// Every instruction of a tree is a tree instruction.
pub open spec fn tree_ok(t: Tree) -> bool
    decreases t,
{
    match t {
        Tree::Op(i) => i.tree_wf(),
        Tree::Block(body) => trees_ok(body),
    }
}

/// Every tree of a sequence is well formed.
pub open spec fn trees_ok(p: Seq<Tree>) -> bool
    decreases p,
{
    p.len() > 0 ==> trees_ok(p.subrange(0, p.len() - 1)) && tree_ok(p[p.len() - 1])
}

proof fn lemma_trees_ok_push(p: Seq<Tree>, t: Tree)
    ensures
        trees_ok(p.push(t)) == (trees_ok(p) && tree_ok(t)),
{
    assert(p.push(t).subrange(0, p.len() as int) =~= p);
}

/// A well-formed sequence of trees holds well-formed trees.
pub proof fn lemma_trees_ok_index(p: Seq<Tree>, i: int)
    requires
        trees_ok(p),
        0 <= i < p.len(),
    ensures
        tree_ok(p[i]),
    decreases p.len(),
{
    if i < p.len() - 1 {
        lemma_trees_ok_index(p.subrange(0, p.len() - 1), i);
    }
}

/// A well-formed peephole tree has a well-formed shape.
pub proof fn lemma_wf_trees_ok(p: Seq<Statement>)
    requires
        wf(p),
    ensures
        trees_ok(trees(p)),
    decreases p,
{
    if p.len() > 0 {
        let front = p.subrange(0, p.len() - 1);
        lemma_wf_trees_ok(front);
        lemma_wf_tree_ok(p[p.len() - 1]);
        lemma_trees_ok_push(trees(front), tree(p[p.len() - 1]));
    }
}

proof fn lemma_wf_tree_ok(st: Statement)
    requires
        wf_stmt(st),
    ensures
        tree_ok(tree(st)),
    decreases st,
{
    if let Statement::Loop(body) = st {
        lemma_wf_trees_ok(body@);
    }
}

proof fn lemma_trees_rest(p: Seq<Statement>)
    requires
        p.len() > 0,
    ensures
        trees(p).len() == p.len(),
        trees(p)[0] == tree(p[0]),
        trees(p).subrange(1, p.len() as int) == trees(p.subrange(1, p.len() as int)),
{
    let rest = p.subrange(1, p.len() as int);
    lemma_trees_index(p, 0);
    lemma_trees_len(rest);
    assert forall|i: int| 0 <= i < rest.len() implies #[trigger] trees(rest)[i] == trees(p)[i
        + 1] by {
        lemma_trees_index(rest, i);
        lemma_trees_index(p, i + 1);
    }
    assert(trees(p).subrange(1, p.len() as int) =~= trees(rest));
}

/// A peephole tree runs exactly as its shape does.
pub proof fn lemma_run_trees(p: Seq<Statement>, m: Machine, fuel: nat)
    ensures
        run_seq(p, m, fuel) == run_trees(trees(p), m, fuel),
    decreases fuel, p,
{
    lemma_trees_len(p);
    if p.len() > 0 {
        lemma_trees_rest(p);
        lemma_run_tree(p[0], m, fuel);
        let q = trees(p);
        assert(run_trees(q, m, fuel) == match run_tree(q[0], m, fuel) {
            Outcome::Done(next) => run_trees(q.subrange(1, q.len() as int), next, fuel),
            other => other,
        });
        if let Outcome::Done(next) = run_stmt(p[0], m, fuel) {
            lemma_run_trees(p.subrange(1, p.len() as int), next, fuel);
        }
    } else {
        assert(trees(p) =~= Seq::<Tree>::empty());
    }
}

proof fn lemma_run_tree(st: Statement, m: Machine, fuel: nat)
    ensures
        run_stmt(st, m, fuel) == run_tree(tree(st), m, fuel),
    decreases fuel, st,
{
    if let Statement::Loop(body) = st {
        lemma_run_tree_loop(body@, m, fuel);
    }
}

proof fn lemma_run_tree_loop(body: Seq<Statement>, m: Machine, fuel: nat)
    ensures
        run_loop(body, m, fuel) == run_tree_loop(trees(body), m, fuel),
    decreases fuel, body,
{
    if m.cell() != 0 && fuel > 0 {
        let f = (fuel - 1) as nat;
        lemma_run_trees(body, m, f);
        if let Outcome::Done(next) = run_seq(body, m, f) {
            lemma_run_tree_loop(body, next, f);
        }
    }
}

/// The instruction a loop body is rewritten to (meaningful when
/// `rewrite(body)` is an instruction).
pub open spec fn rewritten(body: Seq<Tree>) -> Instruction {
    match rewrite(body) {
        Tree::Op(i) => i,
        Tree::Block(_) => Instruction::SetZero,
    }
}

proof fn lemma_run_cons(p: Seq<Tree>, m: Machine, fuel: nat)
    requires
        p.len() > 0,
    ensures
        run_trees(p, m, fuel) == match run_tree(p[0], m, fuel) {
            Outcome::Done(next) => run_trees(p.drop_first(), next, fuel),
            other => other,
        },
{
    assert(p.subrange(1, p.len() as int) =~= p.drop_first());
}

/// Runs of the straight-line bodies that the rewrites match.
proof fn lemma_run_straight(a: Tree, b: Tree, c: Tree, d: Tree, m: Machine, fuel: nat)
    ensures
        run_trees(seq![a], m, fuel) == run_tree(a, m, fuel),
        run_trees(seq![a, b, c, d], m, fuel) == match run_tree(a, m, fuel) {
            Outcome::Done(m1) => match run_tree(b, m1, fuel) {
                Outcome::Done(m2) => match run_tree(c, m2, fuel) {
                    Outcome::Done(m3) => run_tree(d, m3, fuel),
                    other => other,
                },
                other => other,
            },
            other => other,
        },
{
    lemma_run_cons(seq![a], m, fuel);
    assert(seq![a].drop_first() =~= Seq::<Tree>::empty());
    let s4 = seq![a, b, c, d];
    lemma_run_cons(s4, m, fuel);
    assert(s4.drop_first() =~= seq![b, c, d]);
    if let Outcome::Done(m1) = run_tree(a, m, fuel) {
        lemma_run_cons(seq![b, c, d], m1, fuel);
        assert(seq![b, c, d].drop_first() =~= seq![c, d]);
        if let Outcome::Done(m2) = run_tree(b, m1, fuel) {
            lemma_run_cons(seq![c, d], m2, fuel);
            assert(seq![c, d].drop_first() =~= seq![d]);
            if let Outcome::Done(m3) = run_tree(c, m2, fuel) {
                lemma_run_cons(seq![d], m3, fuel);
                assert(seq![d].drop_first() =~= Seq::<Tree>::empty());
            }
        }
    }
}

proof fn lemma_set_zero_loop(k: u8, m: Machine, fuel: nat)
    requires
        m.wf(),
    ensures
        ({
            let o = run_tree_loop(seq![Tree::Op(Instruction::Add(k))], m, fuel);
            o is OutOfFuel || o == Outcome::Done(m.set(0))
        }),
    decreases fuel,
{
    let t = Tree::Op(Instruction::Add(k));
    if m.cell() == 0 {
        assert(m.set(0).tape =~= m.tape);
    } else if fuel > 0 {
        lemma_run_straight(t, t, t, t, m, (fuel - 1) as nat);
        let next = m.add(k);
        lemma_set_zero_loop(k, next, (fuel - 1) as nat);
        assert(next.set(0).tape =~= m.set(0).tape);
    }
}

proof fn lemma_find_zero_right_loop(n: usize, m: Machine, fuel: nat)
    requires
        m.wf(),
        n >= 1,
    ensures
        ({
            let o = run_tree_loop(seq![Tree::Op(Instruction::Right(n))], m, fuel);
            o is OutOfFuel || o == m.find_zero_right(n as int)
        }),
    decreases fuel,
{
    let t = Tree::Op(Instruction::Right(n));
    if m.cell() != 0 && fuel > 0 {
        lemma_run_straight(t, t, t, t, m, (fuel - 1) as nat);
        if let Outcome::Done(next) = m.move_right(n as int) {
            lemma_find_zero_right_loop(n, next, (fuel - 1) as nat);
        }
    }
}

proof fn lemma_find_zero_left_loop(n: usize, m: Machine, fuel: nat)
    requires
        m.wf(),
        n >= 1,
    ensures
        ({
            let o = run_tree_loop(seq![Tree::Op(Instruction::Left(n))], m, fuel);
            o is OutOfFuel || o == m.find_zero_left(n as int)
        }),
    decreases fuel,
{
    let t = Tree::Op(Instruction::Left(n));
    if m.cell() != 0 && fuel > 0 {
        lemma_run_straight(t, t, t, t, m, (fuel - 1) as nat);
        if let Outcome::Done(next) = m.move_left(n as int) {
            lemma_find_zero_left_loop(n, next, (fuel - 1) as nat);
        }
    }
}

/// The body of a transfer loop, `[-` move `+` move back `]`: `n` cells to
/// the right and back when `right`, else to the left and back.
pub open spec fn transfer_body(right: bool, n: usize) -> Seq<Tree> {
    if right {
        seq![
            Tree::Op(Instruction::Add(255)),
            Tree::Op(Instruction::Right(n)),
            Tree::Op(Instruction::Add(1)),
            Tree::Op(Instruction::Left(n)),
        ]
    } else {
        seq![
            Tree::Op(Instruction::Add(255)),
            Tree::Op(Instruction::Left(n)),
            Tree::Op(Instruction::Add(1)),
            Tree::Op(Instruction::Right(n)),
        ]
    }
}

/// What the transfer instruction does.
pub open spec fn transfer(right: bool, n: usize, m: Machine) -> Outcome {
    if right {
        m.offset_add_right(n as int)
    } else {
        m.offset_add_left(n as int)
    }
}

/// The cell a transfer adds to, if it is on the tape.
pub open spec fn transfer_target(right: bool, n: usize, m: Machine) -> int {
    if right {
        m.pos + n
    } else {
        m.pos - n
    }
}

/// One iteration of a transfer loop whose target is on the tape.
pub open spec fn transfer_once(right: bool, n: usize, m: Machine) -> Machine {
    let target = transfer_target(right, n, m);
    Machine {
        tape: m.tape.update(m.pos, wrapping_add(m.cell(), 255)).update(
            target,
            wrapping_add(m.tape[target], 1),
        ),
        pos: m.pos,
        input: m.input,
        output: m.output,
    }
}

proof fn lemma_transfer_iteration(right: bool, n: usize, m: Machine, f: nat)
    requires
        m.wf(),
        n >= 1,
    ensures
        ({
            let target = transfer_target(right, n, m);
            let r = run_trees(transfer_body(right, n), m, f);
            &&& 0 <= target < m.tape.len() ==> r == Outcome::Done(transfer_once(right, n, m))
            &&& !(0 <= target < m.tape.len()) ==> r == Outcome::Fail(
                if right {
                    Error::PointerOverflow
                } else {
                    Error::PointerUnderflow
                },
                m.add(255),
            )
        }),
{
    let body = transfer_body(right, n);
    lemma_run_straight(body[0], body[1], body[2], body[3], m, f);
    assert(body =~= seq![body[0], body[1], body[2], body[3]]);
    let target = transfer_target(right, n, m);
    if 0 <= target < m.tape.len() {
        let m4 = m.add(255).with_pos(target).add(1).with_pos(m.pos);
        assert(m4.tape =~= transfer_once(right, n, m).tape);
    }
}

proof fn lemma_wrapping_transfer(c: u8, t: u8)
    requires
        c != 0,
    ensures
        (wrapping_add(c, 255) == 0) == (c == 1),
        wrapping_add(wrapping_add(t, 1), wrapping_add(c, 255)) == wrapping_add(t, c),
{
}

proof fn lemma_transfer_loop(right: bool, n: usize, m: Machine, fuel: nat)
    requires
        m.wf(),
        n >= 1,
    ensures
        ({
            let o = run_tree_loop(transfer_body(right, n), m, fuel);
            let r = transfer(right, n, m);
            o is OutOfFuel || o == r
        }),
    decreases fuel,
{
    let target = transfer_target(right, n, m);
    if m.cell() != 0 && fuel > 0 {
        let f = (fuel - 1) as nat;
        lemma_transfer_iteration(right, n, m, f);
        if 0 <= target < m.tape.len() {
            let next = transfer_once(right, n, m);
            lemma_transfer_loop(right, n, next, f);
            let c = m.cell();
            let t = m.tape[target];
            lemma_wrapping_transfer(c, t);
            assert(next.cell() == wrapping_add(c, 255));
            assert(next.tape[target] == wrapping_add(t, 1));
            assert(transfer_target(right, n, next) == target);
            let done = m.set(0).tape.update(target, wrapping_add(t, c));
            if c == 1 {
                assert(next.tape =~= done);
            } else {
                assert(next.set(0).tape.update(
                    target,
                    wrapping_add(next.tape[target], next.cell()),
                ) =~= done);
            }
        }
    }
}

/// How many more times `[+]` (`k == 1`) or `[-]` (`k == 255`) repeats from cell `c`.
spec fn clear_steps(k: u8, c: u8) -> int {
    if k == 1 {
        (256 - c) % 256
    } else {
        c as int
    }
}

proof fn lemma_clear_step(k: u8, c: u8)
    requires
        k == 1 || k == 255,
        c != 0,
    ensures
        clear_steps(k, wrapping_add(c, k)) == clear_steps(k, c) - 1,
{
}

proof fn lemma_set_zero_ends(k: u8, m: Machine, fuel: nat)
    requires
        m.wf(),
        k == 1 || k == 255,
        fuel > clear_steps(k, m.cell()),
    ensures
        !(run_tree_loop(seq![Tree::Op(Instruction::Add(k))], m, fuel) is OutOfFuel),
    decreases fuel,
{
    let t = Tree::Op(Instruction::Add(k));
    if m.cell() != 0 {
        let f = (fuel - 1) as nat;
        lemma_run_straight(t, t, t, t, m, f);
        let next = m.add(k);
        assert(next.cell() == wrapping_add(m.cell(), k));
        lemma_clear_step(k, m.cell());
        lemma_set_zero_ends(k, next, f);
    }
}

proof fn lemma_find_zero_right_ends(n: usize, m: Machine, fuel: nat)
    requires
        m.wf(),
        n >= 1,
        fuel > m.tape.len() - m.pos,
    ensures
        !(run_tree_loop(seq![Tree::Op(Instruction::Right(n))], m, fuel) is OutOfFuel),
    decreases fuel,
{
    let t = Tree::Op(Instruction::Right(n));
    if m.cell() != 0 {
        let f = (fuel - 1) as nat;
        lemma_run_straight(t, t, t, t, m, f);
        if let Outcome::Done(next) = m.move_right(n as int) {
            lemma_find_zero_right_ends(n, next, f);
        }
    }
}

proof fn lemma_find_zero_left_ends(n: usize, m: Machine, fuel: nat)
    requires
        m.wf(),
        n >= 1,
        fuel > m.pos,
    ensures
        !(run_tree_loop(seq![Tree::Op(Instruction::Left(n))], m, fuel) is OutOfFuel),
    decreases fuel,
{
    let t = Tree::Op(Instruction::Left(n));
    if m.cell() != 0 {
        let f = (fuel - 1) as nat;
        lemma_run_straight(t, t, t, t, m, f);
        if let Outcome::Done(next) = m.move_left(n as int) {
            lemma_find_zero_left_ends(n, next, f);
        }
    }
}

proof fn lemma_transfer_ends(right: bool, n: usize, m: Machine, fuel: nat)
    requires
        m.wf(),
        n >= 1,
        fuel > m.cell(),
    ensures
        !(run_tree_loop(transfer_body(right, n), m, fuel) is OutOfFuel),
    decreases fuel,
{
    if m.cell() != 0 {
        let f = (fuel - 1) as nat;
        lemma_transfer_iteration(right, n, m, f);
        let target = transfer_target(right, n, m);
        if 0 <= target < m.tape.len() {
            let next = transfer_once(right, n, m);
            assert(next.cell() == wrapping_add(m.cell(), 255));
            lemma_transfer_ends(right, n, next, f);
        }
    }
}

/// Each rewrite is a no-op on meaning, stated over the shapes of trees.
proof fn lemma_rewrite_meaning(body: Seq<Tree>, m: Machine, fuel: nat)
    requires
        m.wf(),
        trees_ok(body),
        rewrite(body) is Op,
    ensures
        ({
            let o = run_tree_loop(body, m, fuel);
            let r = step_instr(rewritten(body), m);
            &&& o is OutOfFuel || o == r
            &&& fuel > 256 + m.tape.len() ==> !(o is OutOfFuel)
        }),
{
    if set_zero_form(body) is Some {
        let k: u8 = if body == seq![Tree::Op(Instruction::Add(1))] {
            1
        } else {
            255
        };
        lemma_set_zero_loop(k, m, fuel);
        if fuel > 256 + m.tape.len() {
            lemma_set_zero_ends(k, m, fuel);
        }
    } else if find_zero_form(body) is Some {
        lemma_trees_ok_index(body, 0);
        match body[0] {
            Tree::Op(Instruction::Right(n)) => {
                assert(body =~= seq![Tree::Op(Instruction::Right(n))]);
                lemma_find_zero_right_loop(n, m, fuel);
                if fuel > 256 + m.tape.len() {
                    lemma_find_zero_right_ends(n, m, fuel);
                }
            },
            Tree::Op(Instruction::Left(n)) => {
                assert(body =~= seq![Tree::Op(Instruction::Left(n))]);
                lemma_find_zero_left_loop(n, m, fuel);
                if fuel > 256 + m.tape.len() {
                    lemma_find_zero_left_ends(n, m, fuel);
                }
            },
            _ => {},
        }
    } else {
        assert(offset_add_form(body) is Some);
        lemma_trees_ok_index(body, 1);
        match body[1] {
            Tree::Op(Instruction::Right(n)) => {
                assert(body =~= transfer_body(true, n));
                lemma_transfer_loop(true, n, m, fuel);
                if fuel > 256 + m.tape.len() {
                    lemma_transfer_ends(true, n, m, fuel);
                }
            },
            Tree::Op(Instruction::Left(n)) => {
                assert(body =~= transfer_body(false, n));
                lemma_transfer_loop(false, n, m, fuel);
                if fuel > 256 + m.tape.len() {
                    lemma_transfer_ends(false, n, m, fuel);
                }
            },
            _ => {},
        }
    }
}

/// Each rewrite of the peephole pass is a no-op on meaning: whenever a loop
/// whose body matches a rewrite finishes within its budget, the instruction
/// it is rewritten to ends the same way, with the same final machine (tape,
/// pointer, input and output) whether it halts or fails; and with a budget
/// above 256 plus the tape's length, the loop always finishes.
pub proof fn rewrite_preserves_meaning(body: Seq<Statement>, m: Machine, fuel: nat)
    requires
        m.wf(),
        wf(body),
        rewrite(trees(body)) is Op,
    ensures
        ({
            let o = run_loop(body, m, fuel);
            let r = step_instr(rewritten(trees(body)), m);
            &&& o is OutOfFuel || o == r
            &&& fuel > 256 + m.tape.len() ==> !(o is OutOfFuel)
        }),
{
    lemma_run_tree_loop(body, m, fuel);
    lemma_wf_trees_ok(body);
    lemma_rewrite_meaning(trees(body), m, fuel);
}

/// Running two sequences of trees one after the other.
pub proof fn lemma_run_trees_append(a: Seq<Tree>, b: Seq<Tree>, m: Machine, fuel: nat)
    ensures
        run_trees(a + b, m, fuel) == match run_trees(a, m, fuel) {
            Outcome::Done(next) => run_trees(b, next, fuel),
            other => other,
        },
    decreases a.len(),
{
    if a.len() == 0 {
        assert(a + b =~= b);
    } else {
        let ab = a + b;
        assert(ab[0] == a[0]);
        assert(ab.subrange(1, ab.len() as int) =~= a.subrange(1, a.len() as int) + b);
        if let Outcome::Done(next) = run_tree(a[0], m, fuel) {
            lemma_run_trees_append(a.subrange(1, a.len() as int), b, next, fuel);
        }
    }
}

/// Running a one-tree sequence.
pub proof fn lemma_run_trees_single(t: Tree, m: Machine, fuel: nat)
    ensures
        run_trees(seq![t], m, fuel) == run_tree(t, m, fuel),
{
    lemma_run_straight(t, t, t, t, m, fuel);
}

proof fn lemma_trees_ok_append(a: Seq<Tree>, b: Seq<Tree>)
    requires
        trees_ok(a),
        trees_ok(b),
    ensures
        trees_ok(a + b),
    decreases b.len(),
{
    if b.len() == 0 {
        assert(a + b =~= a);
    } else {
        let front = b.subrange(0, b.len() - 1);
        lemma_trees_ok_append(a, front);
        assert((a + b).subrange(0, (a + b).len() - 1) =~= a + front);
    }
}

proof fn lemma_trees_ok_repeat(i: Instruction, n: nat)
    requires
        i.tree_wf(),
    ensures
        trees_ok(Seq::new(n, |k: int| Tree::Op(i))),
    decreases n,
{
    let rep = Seq::new(n, |k: int| Tree::Op(i));
    if n > 0 {
        let front = Seq::new((n - 1) as nat, |k: int| Tree::Op(i));
        lemma_trees_ok_repeat(i, (n - 1) as nat);
        assert(rep.subrange(0, n - 1) =~= front);
        assert(rep[n - 1] == Tree::Op(i));
        assert(tree_ok(rep[n - 1]));
        assert(trees_ok(rep));
    }
}

proof fn lemma_optimize_front(r: Seq<rle::Statement>)
    requires
        r.len() > 0,
    ensures
        optimize(r) == optimize_stmt(r[0]) + optimize(r.subrange(1, r.len() as int)),
    decreases r.len(),
{
    let n = r.len() as int;
    if n == 1 {
        assert(r.subrange(0, 0) =~= Seq::<rle::Statement>::empty());
        assert(r.subrange(1, 1) =~= Seq::<rle::Statement>::empty());
        assert(optimize(Seq::<rle::Statement>::empty()) == Seq::<Tree>::empty());
        assert(optimize(r) =~= optimize_stmt(r[0]));
        assert(optimize(r) =~= optimize_stmt(r[0]) + optimize(r.subrange(1, 1)));
    } else {
        let front = r.subrange(0, n - 1);
        lemma_optimize_front(front);
        let rest = r.subrange(1, n);
        assert(rest.subrange(0, rest.len() - 1) =~= front.subrange(1, front.len() as int));
        assert(rest[rest.len() - 1] == r[n - 1]);
        assert(optimize(r) =~= optimize_stmt(r[0]) + optimize(rest));
    }
}

proof fn lemma_optimize_ok(r: Seq<rle::Statement>)
    requires
        rle::wf(r),
    ensures
        trees_ok(optimize(r)),
    decreases r,
{
    if r.len() > 0 {
        let front = r.subrange(0, r.len() - 1);
        lemma_optimize_ok(front);
        rle::lemma_wf_index(r, r.len() - 1);
        lemma_optimize_stmt_ok(r[r.len() - 1]);
        lemma_trees_ok_append(optimize(front), optimize_stmt(r[r.len() - 1]));
    }
}

proof fn lemma_lower_ok(c: Command, n: nat)
    requires
        n >= 1,
        n <= usize::MAX,
    ensures
        trees_ok(lower(c, n)),
{
    let l = lower(c, n);
    if c == Command::In {
        lemma_trees_ok_repeat(Instruction::In, n);
        assert(l =~= Seq::new(n, |k: int| Tree::Op(Instruction::In)));
    } else if c == Command::Out {
        lemma_trees_ok_repeat(Instruction::Out, n);
        assert(l =~= Seq::new(n, |k: int| Tree::Op(Instruction::Out)));
    } else if l.len() == 1 {
        assert(l.subrange(0, 0) =~= Seq::<Tree>::empty());
        assert(trees_ok(Seq::<Tree>::empty()));
        assert(tree_ok(l[0]));
    }
}

proof fn lemma_optimize_stmt_ok(st: rle::Statement)
    requires
        rle::wf_stmt(st),
    ensures
        trees_ok(optimize_stmt(st)),
    decreases st,
{
    match st {
        rle::Statement::Cmd(c, n) => {
            lemma_lower_ok(c, n as nat);
        },
        rle::Statement::Loop(body) => {
            let ob = optimize(body@);
            lemma_optimize_ok(body@);
            let t = rewrite(ob);
            if find_zero_form(ob) is Some && set_zero_form(ob) is None {
                lemma_trees_ok_index(ob, 0);
            }
            if offset_add_form(ob) is Some && set_zero_form(ob) is None && find_zero_form(ob) is None {
                lemma_trees_ok_index(ob, 1);
            }
            assert(tree_ok(t));
            assert(seq![t].subrange(0, 0) =~= Seq::<Tree>::empty());
            assert(trees_ok(Seq::<Tree>::empty()));
        },
    }
}

/// `a` does not run out of budget, or it agrees with `b`.
pub open spec fn refines(a: Outcome, b: Outcome) -> bool {
    a is OutOfFuel || agrees(a, b)
}

proof fn lemma_repeat_io(i: Instruction, n: nat, m: Machine, fuel: nat)
    requires
        i == Instruction::In || i == Instruction::Out,
    ensures
        run_trees(Seq::new(n, |k: int| Tree::Op(i)), m, fuel) == Outcome::Done(
            if i == Instruction::In {
                m.read_times(n)
            } else {
                m.write_times(n)
            },
        ),
    decreases n,
{
    let rep = Seq::new(n, |k: int| Tree::Op(i));
    if n == 0 {
        assert(rep =~= Seq::<Tree>::empty());
    } else {
        let k = (n - 1) as nat;
        let front = Seq::new(k, |j: int| Tree::Op(i));
        assert(rep =~= front + seq![Tree::Op(i)]);
        lemma_run_trees_append(front, seq![Tree::Op(i)], m, fuel);
        lemma_repeat_io(i, k, m, fuel);
        let x = if i == Instruction::In {
            m.read_times(k)
        } else {
            m.write_times(k)
        };
        lemma_run_trees_single(Tree::Op(i), x, fuel);
    }
}

proof fn lemma_down_as_add(c: u8, n: nat)
    ensures
        wrapping_add(c, ((256 - n % 256) % 256) as u8) == crate::state::wrapping_sub(
            c,
            (n % 256) as u8,
        ),
{
    let a = n % 256;
    if a == 0 {
        assert((256 - a) % 256 == 0);
    } else {
        assert((256 - a) % 256 == 256 - a);
    }
}

proof fn lemma_lower(c: Command, n: nat, m: Machine, fuel: nat)
    requires
        m.wf(),
        n <= usize::MAX,
    ensures
        agrees(rle::step_command(c, n, m), run_trees(lower(c, n), m, fuel)),
{
    match c {
        Command::In => lemma_repeat_io(Instruction::In, n, m, fuel),
        Command::Out => lemma_repeat_io(Instruction::Out, n, m, fuel),
        Command::Begin => {},
        Command::End => {},
        _ => {
            let l = lower(c, n);
            lemma_run_trees_single(l[0], m, fuel);
            assert(l =~= seq![l[0]]);
            if c == Command::Down {
                lemma_down_as_add(m.cell(), n);
                assert(m.add(((256 - n % 256) % 256) as u8) == m.sub((n % 256) as u8));
            }
        },
    }
}

proof fn lemma_lowered_seq(r: Seq<rle::Statement>, m: Machine, fuel: nat)
    requires
        m.wf(),
        rle::wf(r),
    ensures
        refines(rle::run_seq(r, m, fuel), run_trees(optimize(r), m, fuel)),
    decreases fuel, r,
{
    if r.len() == 0 {
        assert(optimize(r) =~= Seq::<Tree>::empty());
    } else {
        let rest = r.subrange(1, r.len() as int);
        lemma_optimize_front(r);
        lemma_run_trees_append(optimize_stmt(r[0]), optimize(rest), m, fuel);
        rle::lemma_wf_index(r, 0);
        lemma_rle_wf_rest(r);
        lemma_lowered_stmt(r[0], m, fuel);
        rle::lemma_stmt_keeps_wf(r[0], m, fuel);
        if let Outcome::Done(next) = rle::run_stmt(r[0], m, fuel) {
            lemma_lowered_seq(rest, next, fuel);
        }
    }
}

proof fn lemma_lowered_stmt(st: rle::Statement, m: Machine, fuel: nat)
    requires
        m.wf(),
        rle::wf_stmt(st),
    ensures
        refines(rle::run_stmt(st, m, fuel), run_trees(optimize_stmt(st), m, fuel)),
    decreases fuel, st,
{
    match st {
        rle::Statement::Cmd(c, n) => {
            lemma_lower(c, n as nat, m, fuel);
        },
        rle::Statement::Loop(body) => {
            let ob = optimize(body@);
            lemma_run_trees_single(rewrite(ob), m, fuel);
            lemma_lowered_loop(body@, m, fuel);
            if rewrite(ob) is Op {
                lemma_optimize_ok(body@);
                lemma_rewrite_meaning(ob, m, fuel);
            }
        },
    }
}

proof fn lemma_lowered_loop(body: Seq<rle::Statement>, m: Machine, fuel: nat)
    requires
        m.wf(),
        rle::wf(body),
    ensures
        refines(rle::run_loop(body, m, fuel), run_tree_loop(optimize(body), m, fuel)),
    decreases fuel, body,
{
    if m.cell() != 0 && fuel > 0 {
        let f = (fuel - 1) as nat;
        lemma_lowered_seq(body, m, f);
        rle::lemma_run_keeps_wf(body, m, f);
        if let Outcome::Done(next) = rle::run_seq(body, m, f) {
            lemma_lowered_loop(body, next, f);
        }
    }
}

proof fn lemma_rle_wf_rest(p: Seq<rle::Statement>)
    requires
        rle::wf(p),
        p.len() > 0,
    ensures
        rle::wf(p.subrange(1, p.len() as int)),
    decreases p.len(),
{
    let n = p.len() as int;
    let rest = p.subrange(1, n);
    if n > 1 {
        let front = p.subrange(0, n - 1);
        lemma_rle_wf_rest(front);
        assert(rest.subrange(0, rest.len() - 1) =~= front.subrange(1, front.len() as int));
        if rest.len() > 1 {
            assert(rest[rest.len() - 2] == p[n - 2]);
        }
    } else {
        assert(rest =~= Seq::<rle::Statement>::empty());
    }
}

/// The peephole pass keeps meaning: when a run-length program halts or
/// fails within its budget, a peephole tree whose shape is its optimized
/// form (as the output of [`compile`] is) halts with the same machine, or
/// fails with the same error and the same output, within the same budget.
pub proof fn peephole_pass_preserves_meaning(
    r: Seq<rle::Statement>,
    p: Seq<Statement>,
    m: Machine,
    fuel: nat,
)
    requires
        m.wf(),
        rle::wf(r),
        trees(p) == optimize(r),
    ensures
        refines(rle::run_seq(r, m, fuel), run_seq(p, m, fuel)),
{
    lemma_run_trees(p, m, fuel);
    lemma_lowered_seq(r, m, fuel);
}

proof fn lemma_trees_mono(ts: Seq<Tree>, m: Machine, fuel: nat, more: nat)
    requires
        more >= fuel,
        !(run_trees(ts, m, fuel) is OutOfFuel),
    ensures
        run_trees(ts, m, more) == run_trees(ts, m, fuel),
    decreases fuel, ts,
{
    if ts.len() > 0 {
        lemma_tree_mono(ts[0], m, fuel, more);
        if let Outcome::Done(next) = run_tree(ts[0], m, fuel) {
            lemma_trees_mono(ts.subrange(1, ts.len() as int), next, fuel, more);
        }
    }
}

proof fn lemma_tree_mono(t: Tree, m: Machine, fuel: nat, more: nat)
    requires
        more >= fuel,
        !(run_tree(t, m, fuel) is OutOfFuel),
    ensures
        run_tree(t, m, more) == run_tree(t, m, fuel),
    decreases fuel, t,
{
    if let Tree::Block(body) = t {
        lemma_tree_loop_mono(body, m, fuel, more);
    }
}

proof fn lemma_tree_loop_mono(body: Seq<Tree>, m: Machine, fuel: nat, more: nat)
    requires
        more >= fuel,
        !(run_tree_loop(body, m, fuel) is OutOfFuel),
    ensures
        run_tree_loop(body, m, more) == run_tree_loop(body, m, fuel),
    decreases fuel, body,
{
    if m.cell() != 0 {
        let f = (fuel - 1) as nat;
        let g = (more - 1) as nat;
        lemma_trees_mono(body, m, f, g);
        if let Outcome::Done(next) = run_trees(body, m, f) {
            lemma_tree_loop_mono(body, next, f, g);
        }
    }
}

/// Every tree is a move, an addition or a byte of I/O: no loop, and no
/// instruction that a loop becomes.
pub open spec fn plain(ts: Seq<Tree>) -> bool {
    forall|i: int|
        0 <= i < ts.len() ==> match #[trigger] ts[i] {
            Tree::Op(x) => x is Add || x is Right || x is Left || x is In || x is Out,
            Tree::Block(_) => false,
        }
}

/// No statement is a loop.
pub open spec fn loop_free(r: Seq<rle::Statement>) -> bool {
    forall|i: int| 0 <= i < r.len() ==> (#[trigger] r[i]) is Cmd
}

proof fn lemma_plain_loop_free(r: Seq<rle::Statement>)
    requires
        plain(optimize(r)),
    ensures
        loop_free(r),
    decreases r.len(),
{
    if r.len() > 0 {
        let front = r.subrange(0, r.len() - 1);
        let a = optimize(front);
        let c = optimize_stmt(r[r.len() - 1]);
        assert(optimize(r) == a + c);
        assert forall|i: int| 0 <= i < a.len() implies match #[trigger] a[i] {
            Tree::Op(x) => x is Add || x is Right || x is Left || x is In || x is Out,
            Tree::Block(_) => false,
        } by {
            assert((a + c)[i] == a[i]);
        }
        lemma_plain_loop_free(front);
        if let rle::Statement::Loop(b) = r[r.len() - 1] {
            assert((a + c)[a.len() as int] == c[0]);
        }
        assert forall|i: int| 0 <= i < r.len() implies (#[trigger] r[i]) is Cmd by {
            if i < r.len() - 1 {
                assert(r[i] == front[i]);
            }
        }
    }
}

proof fn lemma_pattern_plain(ob: Seq<Tree>)
    requires
        rewrite(ob) is Op,
    ensures
        plain(ob),
{
    if set_zero_form(ob) is Some {
        assert(ob.len() == 1);
    } else if find_zero_form(ob) is Some {
        assert(ob.len() == 1);
    } else {
        assert(ob.len() == 4);
    }
}

proof fn lemma_loop_free_ends(r: Seq<rle::Statement>, m: Machine, fuel: nat)
    requires
        loop_free(r),
    ensures
        !(rle::run_seq(r, m, fuel) is OutOfFuel),
    decreases r.len(),
{
    if r.len() > 0 {
        let rest = r.subrange(1, r.len() as int);
        assert(r[0] is Cmd);
        assert forall|i: int| 0 <= i < rest.len() implies (#[trigger] rest[i]) is Cmd by {
            assert(rest[i] == r[i + 1]);
        }
        if let Outcome::Done(next) = rle::run_stmt(r[0], m, fuel) {
            lemma_loop_free_ends(rest, next, fuel);
        }
    }
}

/// A loop over straight-line code runs out of budget only as its peephole
/// form does.
proof fn lemma_straight_loop(b: Seq<rle::Statement>, m: Machine, fuel: nat)
    requires
        m.wf(),
        rle::wf(b),
        loop_free(b),
        rle::run_loop(b, m, fuel) is OutOfFuel,
    ensures
        run_tree_loop(optimize(b), m, fuel) is OutOfFuel,
    decreases fuel,
{
    if m.cell() != 0 && fuel > 0 {
        let f = (fuel - 1) as nat;
        lemma_loop_free_ends(b, m, f);
        lemma_lowered_seq(b, m, f);
        rle::lemma_run_keeps_wf(b, m, f);
        if let Outcome::Done(x) = rle::run_seq(b, m, f) {
            lemma_straight_loop(b, x, f);
        }
    }
}

proof fn lemma_lift_seq(r: Seq<rle::Statement>, m: Machine, fuel: nat, big: nat)
    requires
        m.wf(),
        rle::wf(r),
        big >= fuel + 257 + m.tape.len(),
        !(run_trees(optimize(r), m, fuel) is OutOfFuel),
    ensures
        !(rle::run_seq(r, m, big) is OutOfFuel),
    decreases fuel, r,
{
    if r.len() > 0 {
        let rest = r.subrange(1, r.len() as int);
        let first = optimize_stmt(r[0]);
        lemma_optimize_front(r);
        lemma_run_trees_append(first, optimize(rest), m, fuel);
        lemma_run_trees_append(first, optimize(rest), m, big);
        rle::lemma_wf_index(r, 0);
        lemma_rle_wf_rest(r);
        lemma_lift_stmt(r[0], m, fuel, big);
        lemma_lowered_stmt(r[0], m, big);
        rle::lemma_stmt_keeps_wf(r[0], m, big);
        lemma_trees_mono(first, m, fuel, big);
        if let Outcome::Done(x) = rle::run_stmt(r[0], m, big) {
            lemma_lift_seq(rest, x, fuel, big);
        }
    }
}

proof fn lemma_lift_stmt(st: rle::Statement, m: Machine, fuel: nat, big: nat)
    requires
        m.wf(),
        rle::wf_stmt(st),
        big >= fuel + 257 + m.tape.len(),
        !(run_trees(optimize_stmt(st), m, fuel) is OutOfFuel),
    ensures
        !(rle::run_stmt(st, m, big) is OutOfFuel),
    decreases fuel, st,
{
    if let rle::Statement::Loop(b) = st {
        let ob = optimize(b@);
        lemma_run_trees_single(rewrite(ob), m, fuel);
        if rewrite(ob) is Op {
            lemma_pattern_plain(ob);
            lemma_plain_loop_free(b@);
            lemma_optimize_ok(b@);
            lemma_rewrite_meaning(ob, m, big);
            if rle::run_loop(b@, m, big) is OutOfFuel {
                lemma_straight_loop(b@, m, big);
            }
        } else {
            lemma_lift_loop(b@, m, fuel, big);
        }
    }
}

proof fn lemma_lift_loop(b: Seq<rle::Statement>, m: Machine, fuel: nat, big: nat)
    requires
        m.wf(),
        rle::wf(b),
        big >= fuel + 257 + m.tape.len(),
        !(run_tree_loop(optimize(b), m, fuel) is OutOfFuel),
    ensures
        !(rle::run_loop(b, m, big) is OutOfFuel),
    decreases fuel, b,
{
    if m.cell() != 0 {
        let f = (fuel - 1) as nat;
        let g = (big - 1) as nat;
        lemma_lift_seq(b, m, f, g);
        lemma_lowered_seq(b, m, g);
        rle::lemma_run_keeps_wf(b, m, g);
        lemma_trees_mono(optimize(b), m, f, g);
        if let Outcome::Done(x) = rle::run_seq(b, m, g) {
            lemma_lift_loop(b, x, f, g);
        }
    }
}

/// The peephole pass keeps divergence as well: when a peephole tree whose
/// shape is the optimized form of a run-length program halts or fails
/// within budget `fuel`, the run-length program halts or fails within
/// budget `fuel + 257 + m.tape.len()`, and the two end alike.
pub proof fn peephole_halts_only_if_run_length_halts(
    r: Seq<rle::Statement>,
    p: Seq<Statement>,
    m: Machine,
    fuel: nat,
)
    requires
        m.wf(),
        rle::wf(r),
        trees(p) == optimize(r),
        !(run_seq(p, m, fuel) is OutOfFuel),
    ensures
        !(rle::run_seq(r, m, fuel + 257 + m.tape.len()) is OutOfFuel),
        agrees(rle::run_seq(r, m, fuel + 257 + m.tape.len()), run_seq(p, m, fuel)),
{
    let big = (fuel + 257 + m.tape.len()) as nat;
    lemma_run_trees(p, m, fuel);
    lemma_run_trees(p, m, big);
    lemma_lift_seq(r, m, fuel, big);
    lemma_lowered_seq(r, m, big);
    lemma_trees_mono(optimize(r), m, fuel, big);
}

} // verus!
