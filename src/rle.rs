//! Run-length encoding: runs of one command fuse into a single statement
//! with a repeat count.

use vstd::prelude::*;

use crate::ast;
use crate::common::{command_byte, BfResult, Command, Count};
use crate::rts::RtsState;
use crate::state::{agrees, machine, reports, wrapping_add, wrapping_sub, Machine, Outcome, State};
use crate::traits::Interpretable;
use vstd::arithmetic::div_mod::{
    lemma_add_mod_noop_right, lemma_mod_twice, lemma_sub_mod_noop,
};

verus! {

/// A run-length encoded statement.
#[derive(Debug, PartialEq, Eq)]
pub enum Statement {
    /// A command (other than `Begin` and `End`) repeated the given number of times.
    Cmd(Command, Count),
    /// A loop around a sequence of statements.
    Loop(Vec<Statement>),
}

/// `n` copies of the byte `b`.
pub open spec fn repeat(b: u8, n: nat) -> Seq<u8> {
    Seq::new(n, |i: int| b)
}

/// The source text of a statement.
pub open spec fn render_stmt(st: Statement) -> Seq<u8>
    decreases st,
{
    match st {
        Statement::Cmd(c, n) => repeat(command_byte(c), n as nat),
        Statement::Loop(body) => seq![91u8] + render(body@) + seq![93u8],
    }
}

/// The source text of a sequence of statements.
pub open spec fn render(p: Seq<Statement>) -> Seq<u8>
    decreases p,
{
    if p.len() == 0 {
        Seq::empty()
    } else {
        render(p.subrange(0, p.len() - 1)) + render_stmt(p[p.len() - 1])
    }
}

/// The shape a statement stands for: a count of `n` is `n` commands.
pub open spec fn expand_stmt(st: Statement) -> Seq<ast::Op>
    decreases st,
{
    match st {
        Statement::Cmd(c, n) => Seq::new(n as nat, |i: int| ast::Op::Cmd(c)),
        Statement::Loop(body) => seq![ast::Op::Loop(expand(body@))],
    }
}

/// The shapes a sequence of statements stands for.
pub open spec fn expand(p: Seq<Statement>) -> Seq<ast::Op>
    decreases p,
{
    if p.len() == 0 {
        Seq::empty()
    } else {
        expand(p.subrange(0, p.len() - 1)) + expand_stmt(p[p.len() - 1])
    }
}

/// Two neighbours are not a run that could have been fused: either they are
/// not the same command, or the first count is already at its maximum.
pub open spec fn fused(a: Statement, b: Statement) -> bool {
    match (a, b) {
        (Statement::Cmd(c1, n1), Statement::Cmd(c2, n2)) => c1 != c2 || n1 == usize::MAX,
        _ => true,
    }
}

/// A statement has a count of at least 1, no `Begin` or `End`, and
/// well-formed loop bodies.
pub open spec fn wf_stmt(st: Statement) -> bool
    decreases st,
{
    match st {
        Statement::Cmd(c, n) => n >= 1 && c != Command::Begin && c != Command::End,
        Statement::Loop(body) => wf(body@),
    }
}

/// Every statement is well formed, and no two neighbours could be fused.
pub open spec fn wf(p: Seq<Statement>) -> bool
    decreases p,
{
    p.len() > 0 ==> {
        &&& wf(p.subrange(0, p.len() - 1))
        &&& wf_stmt(p[p.len() - 1])
        &&& (p.len() > 1 ==> fused(p[p.len() - 2], p[p.len() - 1]))
    }
}

proof fn lemma_push(p: Seq<Statement>, st: Statement)
    ensures
        render(p.push(st)) == render(p) + render_stmt(st),
        expand(p.push(st)) == expand(p) + expand_stmt(st),
        wf(p.push(st)) == (wf(p) && wf_stmt(st) && (p.len() > 0 ==> fused(p.last(), st))),
{
    assert(p.push(st).subrange(0, p.len() as int) =~= p);
}

proof fn lemma_ast_take(p: Seq<ast::Statement>, i: int)
    requires
        0 <= i < p.len(),
    ensures
        ast::render(p.take(i + 1)) == ast::render(p.take(i)) + ast::render_stmt(p[i]),
        ast::shapes(p.take(i + 1)) == ast::shapes(p.take(i)).push(ast::shape(p[i])),
        ast::wf(p.take(i + 1)) == (ast::wf(p.take(i)) && ast::wf_stmt(p[i])),
{
    assert(p.take(i + 1).subrange(0, i) =~= p.take(i));
}

proof fn lemma_ast_wf_take(p: Seq<ast::Statement>, i: int)
    requires
        ast::wf(p),
        0 <= i <= p.len(),
    ensures
        ast::wf(p.take(i)),
    decreases p.len() - i,
{
    if i < p.len() {
        lemma_ast_wf_take(p, i + 1);
        lemma_ast_take(p, i);
    } else {
        assert(p.take(i) =~= p);
    }
}

/// Run-length encodes a tree: the text is kept, and no two neighbours could
/// have been fused.
pub fn compile(program: &Vec<ast::Statement>) -> (r: Vec<Statement>)
    requires
        ast::wf(program@),
    ensures
        render(r@) == ast::render(program@),
        expand(r@) == ast::shapes(program@),
        wf(r@),
    decreases program,
{
    let mut out: Vec<Statement> = Vec::new();
    let mut i: usize = 0;
    assert(program@.take(0) =~= Seq::<ast::Statement>::empty());
    assert(render(out@) == ast::render(program@.take(0)));
    assert(expand(out@) =~= ast::shapes(program@.take(0)));
    while i < program.len()
        invariant
            i <= program.len(),
            ast::wf(program@),
            render(out@) == ast::render(program@.take(i as int)),
            expand(out@) == ast::shapes(program@.take(i as int)),
            wf(out@),
        decreases program.len() - i,
    {
        proof {
            lemma_ast_take(program@, i as int);
            lemma_ast_wf_take(program@, i as int + 1);
        }
        match &program[i] {
            ast::Statement::Cmd(c) => {
                let c = *c;
                let n = out.len();
                let mut extended = false;
                if n > 0 {
                    match &out[n - 1] {
                        Statement::Cmd(last, count) => {
                            if *last == c && *count < usize::MAX {
                                let next = Statement::Cmd(c, *count + 1);
                                let ghost prev = out@;
                                out.set(n - 1, next);
                                proof {
                                    let front = prev.drop_last();
                                    assert(prev =~= front.push(prev.last()));
                                    assert(out@ =~= front.push(next));
                                    lemma_push(front, prev.last());
                                    lemma_push(front, next);
                                    assert(repeat(command_byte(c), (*count + 1) as nat) =~= repeat(
                                        command_byte(c),
                                        *count as nat,
                                    ).push(command_byte(c)));
                                    assert(render(out@) =~= render(prev) + seq![command_byte(c)]);
                                    assert(Seq::new((*count + 1) as nat, |j: int| ast::Op::Cmd(c))
                                        =~= Seq::new(*count as nat, |j: int| ast::Op::Cmd(c)).push(
                                        ast::Op::Cmd(c),
                                    ));
                                    assert(expand(out@) =~= expand(prev).push(ast::Op::Cmd(c)));
                                    if front.len() > 0 {
                                        assert(fused(front.last(), next));
                                    }
                                }
                                extended = true;
                            }
                        },
                        Statement::Loop(_) => {},
                    }
                }
                if !extended {
                    let next = Statement::Cmd(c, 1);
                    proof {
                        lemma_push(out@, next);
                        assert(repeat(command_byte(c), 1) =~= seq![command_byte(c)]);
                        assert(Seq::new(1, |j: int| ast::Op::Cmd(c)) =~= seq![ast::Op::Cmd(c)]);
                    }
                    out.push(next);
                }
            },
            ast::Statement::Loop(body) => {
                let b = compile(body);
                let next = Statement::Loop(b);
                proof {
                    lemma_push(out@, next);
                }
                out.push(next);
            },
        }
        i = i + 1;
    }
    assert(program@.take(program.len() as int) =~= program@);
    out
}

/// The effect of a repeated command.
pub open spec fn step_command(c: Command, n: nat, m: Machine) -> Outcome {
    match c {
        Command::Right => m.move_right(n as int),
        Command::Left => m.move_left(n as int),
        Command::Up => Outcome::Done(m.add((n % 256) as u8)),
        Command::Down => Outcome::Done(m.sub((n % 256) as u8)),
        Command::In => Outcome::Done(m.read_times(n)),
        Command::Out => Outcome::Done(m.write_times(n)),
        Command::Begin => Outcome::Done(m),
        Command::End => Outcome::Done(m),
    }
}

/// Runs one statement; a loop may repeat its body at most `fuel` times, and
/// each repetition runs with one unit less.
pub open spec fn run_stmt(st: Statement, m: Machine, fuel: nat) -> Outcome
    decreases fuel, st,
{
    match st {
        Statement::Cmd(c, n) => step_command(c, n as nat, m),
        Statement::Loop(body) => run_loop(body@, m, fuel),
    }
}

/// Runs statements in order, stopping at the first that does not finish.
pub open spec fn run_seq(p: Seq<Statement>, m: Machine, fuel: nat) -> Outcome
    decreases fuel, p,
{
    if p.len() == 0 {
        Outcome::Done(m)
    } else {
        match run_stmt(p[0], m, fuel) {
            Outcome::Done(next) => run_seq(p.subrange(1, p.len() as int), next, fuel),
            other => other,
        }
    }
}

/// Repeats a loop body while the current cell is nonzero.
pub open spec fn run_loop(body: Seq<Statement>, m: Machine, fuel: nat) -> Outcome
    decreases fuel, body,
{
    if m.cell() == 0 {
        Outcome::Done(m)
    } else if fuel == 0 {
        Outcome::OutOfFuel
    } else {
        match run_seq(body, m, (fuel - 1) as nat) {
            Outcome::Done(next) => run_loop(body, next, (fuel - 1) as nat),
            other => other,
        }
    }
}

proof fn lemma_run_seq_step(p: Seq<Statement>, i: int, m: Machine, fuel: nat)
    requires
        0 <= i < p.len(),
    ensures
        run_seq(p.subrange(i, p.len() as int), m, fuel) == match run_stmt(p[i], m, fuel) {
            Outcome::Done(next) => run_seq(p.subrange(i + 1, p.len() as int), next, fuel),
            other => other,
        },
{
    let s = p.subrange(i, p.len() as int);
    assert(s.subrange(1, s.len() as int) =~= p.subrange(i + 1, p.len() as int));
}

/// Every statement of a well-formed sequence is well formed.
pub proof fn lemma_wf_index(p: Seq<Statement>, i: int)
    requires
        wf(p),
        0 <= i < p.len(),
    ensures
        wf_stmt(p[i]),
    decreases p.len(),
{
    if i < p.len() - 1 {
        lemma_wf_index(p.subrange(0, p.len() - 1), i);
    }
}

fn interpret_command(c: Command, count: Count, state: &mut State, rts: &mut RtsState) -> (r:
    BfResult<()>)
    requires
        old(state).wf(),
    ensures
        final(state).wf(),
        reports(
            step_command(c, count as nat, machine(*old(state), *old(rts))),
            Some(r),
            machine(*final(state), *final(rts)),
        ),
{
    let ghost m0 = machine(*state, *rts);
    match c {
        Command::Right => state.right(count),
        Command::Left => state.left(count),
        Command::Up => {
            state.up((count % 256) as u8);
            Ok(())
        },
        Command::Down => {
            state.down((count % 256) as u8);
            Ok(())
        },
        Command::In => {
            let mut j: usize = 0;
            while j < count
                invariant
                    j <= count,
                    state.wf(),
                    machine(*state, *rts) == m0.read_times(j as nat),
                decreases count - j,
            {
                state.read(rts);
                j = j + 1;
            }
            Ok(())
        },
        Command::Out => {
            let mut j: usize = 0;
            while j < count
                invariant
                    j <= count,
                    state.wf(),
                    machine(*state, *rts) == m0.write_times(j as nat),
                decreases count - j,
            {
                state.write(rts);
                j = j + 1;
            }
            Ok(())
        },
        _ => Ok(()),
    }
}

fn interpret_statement(st: &Statement, state: &mut State, rts: &mut RtsState, fuel: u64) -> (r:
    Option<BfResult<()>>)
    requires
        old(state).wf(),
        wf_stmt(*st),
    ensures
        final(state).wf(),
        reports(
            run_stmt(*st, machine(*old(state), *old(rts)), fuel as nat),
            r,
            machine(*final(state), *final(rts)),
        ),
    decreases fuel, st,
{
    match st {
        Statement::Cmd(c, n) => Some(interpret_command(*c, *n, state, rts)),
        Statement::Loop(body) => {
            let ghost m0 = machine(*state, *rts);
            let mut f: u64 = fuel;
            loop
                invariant
                    m0 == machine(*old(state), *old(rts)),
                    run_stmt(*st, m0, fuel as nat) == run_loop(body@, m0, fuel as nat),
                    f <= fuel,
                    state.wf(),
                    wf(body@),
                    run_loop(body@, m0, fuel as nat) == run_loop(
                        body@,
                        machine(*state, *rts),
                        f as nat,
                    ),
                decreases f,
            {
                if state.load() == 0 {
                    return Some(Ok(()));
                }
                if f == 0 {
                    return None;
                }
                f = f - 1;
                match interpret(body, state, rts, f) {
                    Some(Ok(())) => {},
                    other => {
                        return other;
                    },
                }
            }
        },
    }
}

fn interpret(program: &Vec<Statement>, state: &mut State, rts: &mut RtsState, fuel: u64) -> (r:
    Option<BfResult<()>>)
    requires
        old(state).wf(),
        wf(program@),
    ensures
        final(state).wf(),
        reports(
            run_seq(program@, machine(*old(state), *old(rts)), fuel as nat),
            r,
            machine(*final(state), *final(rts)),
        ),
    decreases fuel, program,
{
    let ghost m0 = machine(*state, *rts);
    let mut i: usize = 0;
    assert(program@.subrange(0, program@.len() as int) =~= program@);
    while i < program.len()
        invariant
            m0 == machine(*old(state), *old(rts)),
            i <= program.len(),
            state.wf(),
            wf(program@),
            run_seq(program@, m0, fuel as nat) == run_seq(
                program@.subrange(i as int, program@.len() as int),
                machine(*state, *rts),
                fuel as nat,
            ),
        decreases program.len() - i,
    {
        proof {
            lemma_run_seq_step(program@, i as int, machine(*state, *rts), fuel as nat);
            lemma_wf_index(program@, i as int);
        }
        match interpret_statement(&program[i], state, rts, fuel) {
            Some(Ok(())) => {},
            other => {
                return other;
            },
        }
        i = i + 1;
    }
    Some(Ok(()))
}

impl Interpretable for Vec<Statement> {
    open spec fn runnable(&self) -> bool {
        wf(self@)
    }

    open spec fn outcome(&self, m: Machine, fuel: nat) -> Outcome {
        run_seq(self@, m, fuel)
    }

    fn interpret_state(&self, state: &mut State, rts: &mut RtsState, fuel: u64) -> (r: Option<
        BfResult<()>,
    >) {
        interpret(self, state, rts, fuel)
    }
}

proof fn lemma_ops_append(a: Seq<ast::Op>, b: Seq<ast::Op>, m: Machine, fuel: nat)
    ensures
        ast::run_ops(a + b, m, fuel) == match ast::run_ops(a, m, fuel) {
            Outcome::Done(next) => ast::run_ops(b, next, fuel),
            other => other,
        },
    decreases a.len(),
{
    if a.len() == 0 {
        assert(a + b =~= b);
    } else {
        let ab = a + b;
        assert(ab[0] == a[0]);
        assert(ab.subrange(1, ab.len() as int) =~= a.subrange(1, a.len() as int) + b);
        if let Outcome::Done(next) = ast::run_op(a[0], m, fuel) {
            lemma_ops_append(a.subrange(1, a.len() as int), b, next, fuel);
        }
    }
}

proof fn lemma_ops_single(o: ast::Op, m: Machine, fuel: nat)
    ensures
        ast::run_ops(seq![o], m, fuel) == ast::run_op(o, m, fuel),
{
    let s = seq![o];
    assert(s.subrange(1, 1) =~= Seq::<ast::Op>::empty());
    assert(s[0] == o);
    if let Outcome::Done(next) = ast::run_op(o, m, fuel) {
        assert(ast::run_ops(Seq::<ast::Op>::empty(), next, fuel) == Outcome::Done(next));
    }
}

proof fn lemma_expand_front(r: Seq<Statement>)
    requires
        r.len() > 0,
    ensures
        expand(r) == expand_stmt(r[0]) + expand(r.subrange(1, r.len() as int)),
    decreases r.len(),
{
    let n = r.len() as int;
    if n == 1 {
        assert(r.subrange(0, 0) =~= Seq::<Statement>::empty());
        assert(r.subrange(1, 1) =~= Seq::<Statement>::empty());
        assert(expand(Seq::<Statement>::empty()) == Seq::<ast::Op>::empty());
        assert(expand(r) =~= expand_stmt(r[0]));
        assert(expand(r) =~= expand_stmt(r[0]) + expand(r.subrange(1, 1)));
    } else {
        let front = r.subrange(0, n - 1);
        lemma_expand_front(front);
        let rest = r.subrange(1, n);
        assert(rest.subrange(0, rest.len() - 1) =~= front.subrange(1, front.len() as int));
        assert(rest[rest.len() - 1] == r[n - 1]);
        assert(expand(r) =~= expand_stmt(r[0]) + expand(rest));
    }
}

proof fn lemma_ops_keep_wf(p: Seq<ast::Op>, m: Machine, fuel: nat)
    requires
        m.wf(),
    ensures
        ast::run_ops(p, m, fuel) matches Outcome::Done(x) ==> x.wf(),
    decreases fuel, p,
{
    if p.len() > 0 {
        lemma_op_keeps_wf(p[0], m, fuel);
        if let Outcome::Done(next) = ast::run_op(p[0], m, fuel) {
            lemma_ops_keep_wf(p.subrange(1, p.len() as int), next, fuel);
        }
    }
}

proof fn lemma_op_keeps_wf(o: ast::Op, m: Machine, fuel: nat)
    requires
        m.wf(),
    ensures
        ast::run_op(o, m, fuel) matches Outcome::Done(x) ==> x.wf(),
    decreases fuel, o,
{
    if let ast::Op::Loop(body) = o {
        lemma_op_loop_keeps_wf(body, m, fuel);
    }
}

proof fn lemma_op_loop_keeps_wf(body: Seq<ast::Op>, m: Machine, fuel: nat)
    requires
        m.wf(),
    ensures
        ast::run_op_loop(body, m, fuel) matches Outcome::Done(x) ==> x.wf(),
    decreases fuel, body,
{
    if m.cell() != 0 && fuel > 0 {
        let f = (fuel - 1) as nat;
        lemma_ops_keep_wf(body, m, f);
        if let Outcome::Done(next) = ast::run_ops(body, m, f) {
            lemma_op_loop_keeps_wf(body, next, f);
        }
    }
}

proof fn lemma_wrap_count(c: u8, k: nat)
    ensures
        wrapping_add(wrapping_add(c, (k % 256) as u8), 1) == wrapping_add(c, ((k + 1) % 256) as u8),
        wrapping_sub(wrapping_sub(c, (k % 256) as u8), 1) == wrapping_sub(c, ((k + 1) % 256) as u8),
{
    let a: int = k as int % 256;
    let b: int = (k as int + 1) % 256;
    let ci = c as int;
    assert(0 <= a < 256 && 0 <= b < 256);
    lemma_add_mod_noop_right(1, k as int, 256);
    assert(b == (1 + a) % 256);
    lemma_add_mod_noop_right(1, ci + a, 256);
    lemma_add_mod_noop_right(ci, a + 1, 256);
    assert(((ci + a) % 256 + 1) % 256 == (ci + a + 1) % 256);
    assert((ci + b) % 256 == (ci + a + 1) % 256);
    lemma_sub_mod_noop(ci - a, 1, 256);
    lemma_sub_mod_noop(ci, a + 1, 256);
    assert(((ci - a) % 256 - 1) % 256 == (ci - a - 1) % 256) by {
        lemma_mod_self_and_small(ci - a);
    }
    assert((ci - b) % 256 == (ci - a - 1) % 256) by {
        lemma_mod_self_and_small(ci - b);
    }
}

proof fn lemma_mod_self_and_small(x: int)
    ensures
        (x % 256) % 256 == x % 256,
        1int % 256 == 1,
{
    lemma_mod_twice(x, 256);
}

proof fn lemma_repeat_step(c: Command, k: nat, m: Machine, x: Machine)
    requires
        m.wf(),
        x.wf(),
        k >= 1,
        step_command(c, k, m) == Outcome::Done(x),
    ensures
        agrees(step_command(c, k + 1, m), ast::step_command(c, x)),
{
    match c {
        Command::Up => {
            lemma_wrap_count(m.cell(), k);
            assert(x.add(1).tape =~= m.add(((k + 1) % 256) as u8).tape);
        },
        Command::Down => {
            lemma_wrap_count(m.cell(), k);
            assert(x.sub(1).tape =~= m.sub(((k + 1) % 256) as u8).tape);
        },
        Command::In => {
            assert(m.read_times(k + 1) == m.read_times(k).read());
        },
        Command::Out => {
            assert(m.write_times(k + 1) == m.write_times(k).write());
        },
        _ => {},
    }
}

proof fn lemma_repeat(c: Command, n: nat, m: Machine, fuel: nat)
    requires
        m.wf(),
        n >= 1,
    ensures
        agrees(step_command(c, n, m), ast::run_ops(Seq::new(n, |i: int| ast::Op::Cmd(c)), m, fuel)),
    decreases n,
{
    let rep = Seq::new(n, |i: int| ast::Op::Cmd(c));
    if n == 1 {
        lemma_ops_single(ast::Op::Cmd(c), m, fuel);
        assert(rep =~= seq![ast::Op::Cmd(c)]);
        assert(m.read_times(1) == m.read_times(0).read());
        assert(m.write_times(1) == m.write_times(0).write());
    } else {
        let k = (n - 1) as nat;
        let front = Seq::new(k, |i: int| ast::Op::Cmd(c));
        assert(rep =~= front + seq![ast::Op::Cmd(c)]);
        lemma_ops_append(front, seq![ast::Op::Cmd(c)], m, fuel);
        lemma_repeat(c, k, m, fuel);
        if let Outcome::Done(x) = ast::run_ops(front, m, fuel) {
            lemma_ops_single(ast::Op::Cmd(c), x, fuel);
            lemma_ops_keep_wf(front, m, fuel);
            lemma_repeat_step(c, k, m, x);
        }
    }
}

proof fn lemma_encoded_seq(r: Seq<Statement>, m: Machine, fuel: nat)
    requires
        m.wf(),
        wf(r),
    ensures
        agrees(run_seq(r, m, fuel), ast::run_ops(expand(r), m, fuel)),
    decreases fuel, r,
{
    if r.len() == 0 {
        assert(expand(r) =~= Seq::<ast::Op>::empty());
    } else {
        let rest = r.subrange(1, r.len() as int);
        lemma_expand_front(r);
        lemma_ops_append(expand_stmt(r[0]), expand(rest), m, fuel);
        lemma_wf_index(r, 0);
        lemma_wf_rest(r);
        lemma_encoded_stmt(r[0], m, fuel);
        lemma_ops_keep_wf(expand_stmt(r[0]), m, fuel);
        if let Outcome::Done(next) = run_stmt(r[0], m, fuel) {
            lemma_encoded_seq(rest, next, fuel);
        }
    }
}

proof fn lemma_encoded_stmt(st: Statement, m: Machine, fuel: nat)
    requires
        m.wf(),
        wf_stmt(st),
    ensures
        agrees(run_stmt(st, m, fuel), ast::run_ops(expand_stmt(st), m, fuel)),
    decreases fuel, st,
{
    match st {
        Statement::Cmd(c, n) => {
            lemma_repeat(c, n as nat, m, fuel);
        },
        Statement::Loop(body) => {
            lemma_ops_single(ast::Op::Loop(expand(body@)), m, fuel);
            lemma_encoded_loop(body@, m, fuel);
        },
    }
}

proof fn lemma_encoded_loop(body: Seq<Statement>, m: Machine, fuel: nat)
    requires
        m.wf(),
        wf(body),
    ensures
        agrees(run_loop(body, m, fuel), ast::run_op_loop(expand(body), m, fuel)),
    decreases fuel, body,
{
    if m.cell() != 0 && fuel > 0 {
        let f = (fuel - 1) as nat;
        lemma_encoded_seq(body, m, f);
        lemma_ops_keep_wf(expand(body), m, f);
        if let Outcome::Done(next) = run_seq(body, m, f) {
            lemma_encoded_loop(body, next, f);
        }
    }
}

proof fn lemma_wf_rest(p: Seq<Statement>)
    requires
        wf(p),
        p.len() > 0,
    ensures
        wf(p.subrange(1, p.len() as int)),
    decreases p.len(),
{
    let n = p.len() as int;
    let rest = p.subrange(1, n);
    if n > 1 {
        let front = p.subrange(0, n - 1);
        lemma_wf_rest(front);
        assert(rest.subrange(0, rest.len() - 1) =~= front.subrange(1, front.len() as int));
        if rest.len() > 1 {
            assert(rest[rest.len() - 2] == p[n - 2]);
        }
    } else {
        assert(rest =~= Seq::<Statement>::empty());
    }
}

/// Run-length encoding keeps the meaning of a tree: a run-length program
/// whose expansion is the tree's shape (as the output of [`compile`] is)
/// halts exactly as the tree does, or fails with the same error and the
/// same output, or runs out of the same budget.
pub proof fn run_length_encoding_preserves_meaning(
    p: Seq<ast::Statement>,
    r: Seq<Statement>,
    m: Machine,
    fuel: nat,
)
    requires
        m.wf(),
        wf(r),
        expand(r) == ast::shapes(p),
    ensures
        agrees(run_seq(r, m, fuel), ast::run_seq(p, m, fuel)),
{
    ast::lemma_run_shapes(p, m, fuel);
    lemma_encoded_seq(r, m, fuel);
}

proof fn lemma_io_keeps_tape(m: Machine, n: nat)
    requires
        m.wf(),
    ensures
        m.read_times(n).tape.len() == m.tape.len(),
        m.read_times(n).pos == m.pos,
        m.write_times(n).tape == m.tape,
        m.write_times(n).pos == m.pos,
    decreases n,
{
    if n > 0 {
        lemma_io_keeps_tape(m, (n - 1) as nat);
    }
}

/// A run from a well-formed machine that halts leaves a well-formed machine.
pub proof fn lemma_run_keeps_wf(p: Seq<Statement>, m: Machine, fuel: nat)
    requires
        m.wf(),
    ensures
        run_seq(p, m, fuel) matches Outcome::Done(x) ==> x.wf() && x.tape.len() == m.tape.len(),
    decreases fuel, p,
{
    if p.len() > 0 {
        lemma_stmt_keeps_wf(p[0], m, fuel);
        if let Outcome::Done(next) = run_stmt(p[0], m, fuel) {
            lemma_run_keeps_wf(p.subrange(1, p.len() as int), next, fuel);
        }
    }
}

/// A statement run from a well-formed machine that halts leaves a
/// well-formed machine.
pub proof fn lemma_stmt_keeps_wf(st: Statement, m: Machine, fuel: nat)
    requires
        m.wf(),
    ensures
        run_stmt(st, m, fuel) matches Outcome::Done(x) ==> x.wf() && x.tape.len() == m.tape.len(),
    decreases fuel, st,
{
    match st {
        Statement::Cmd(_, n) => {
            lemma_io_keeps_tape(m, n as nat);
        },
        Statement::Loop(body) => {
            lemma_loop_keeps_wf(body@, m, fuel);
        },
    }
}

proof fn lemma_loop_keeps_wf(body: Seq<Statement>, m: Machine, fuel: nat)
    requires
        m.wf(),
    ensures
        run_loop(body, m, fuel) matches Outcome::Done(x) ==> x.wf() && x.tape.len() == m.tape.len(),
    decreases fuel, body,
{
    if m.cell() != 0 && fuel > 0 {
        let f = (fuel - 1) as nat;
        lemma_run_keeps_wf(body, m, f);
        if let Outcome::Done(next) = run_seq(body, m, f) {
            lemma_loop_keeps_wf(body, next, f);
        }
    }
}

} // verus!
