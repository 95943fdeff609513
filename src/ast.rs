//! The abstract syntax tree: parsing source text, and interpreting the tree.
//!
//! Loops are subtrees rather than pairs of bracket commands, so a well-formed
//! tree holds no `Begin` or `End` command.

use vstd::prelude::*;

use crate::common::{command_byte, is_command_byte, BfResult, Command, Error};
use crate::rts::RtsState;
use crate::state::{machine, reports, Machine, Outcome, State};
use crate::traits::Interpretable;

verus! {

/// A statement of the tree.
#[derive(Debug, PartialEq, Eq)]
pub enum Statement {
    /// A command other than `Begin` and `End`.
    Cmd(Command),
    /// A loop around a sequence of statements.
    Loop(Vec<Statement>),
}

/// The source text of a statement.
pub open spec fn render_stmt(st: Statement) -> Seq<u8>
    decreases st,
{
    match st {
        Statement::Cmd(c) => seq![command_byte(c)],
        Statement::Loop(body) => seq![91u8] + render(body@) + seq![93u8],
    }
}

/// The source text of a sequence of statements, without comments.
pub open spec fn render(p: Seq<Statement>) -> Seq<u8>
    decreases p,
{
    if p.len() == 0 {
        Seq::empty()
    } else {
        render(p.subrange(0, p.len() - 1)) + render_stmt(p[p.len() - 1])
    }
}

/// A statement holds no `Begin` or `End` command.
pub open spec fn wf_stmt(st: Statement) -> bool
    decreases st,
{
    match st {
        Statement::Cmd(c) => c != Command::Begin && c != Command::End,
        Statement::Loop(body) => wf(body@),
    }
}

/// No statement of the sequence holds a `Begin` or `End` command.
pub open spec fn wf(p: Seq<Statement>) -> bool
    decreases p,
{
    p.len() > 0 ==> wf(p.subrange(0, p.len() - 1)) && wf_stmt(p[p.len() - 1])
}

/// The command characters of a source text, in order.
pub open spec fn strip(s: Seq<u8>) -> Seq<u8>
    decreases s.len(),
{
    if s.len() == 0 {
        Seq::empty()
    } else if is_command_byte(s.last()) {
        strip(s.drop_last()).push(s.last())
    } else {
        strip(s.drop_last())
    }
}

/// How much a byte changes the bracket nesting depth.
pub open spec fn nesting(b: u8) -> int {
    if b == 91u8 {
        1
    } else if b == 93u8 {
        -1
    } else {
        0
    }
}

/// The number of `[` minus the number of `]` in a text.
pub open spec fn depth(s: Seq<u8>) -> int
    decreases s.len(),
{
    if s.len() == 0 {
        0
    } else {
        depth(s.drop_last()) + nesting(s.last())
    }
}

/// Some prefix of the text closes more brackets than it opens.
pub open spec fn dips_below_zero(s: Seq<u8>) -> bool {
    exists|j: int| 0 <= j <= s.len() && #[trigger] depth(s.take(j)) < 0
}

/// Every bracket of the text has its partner.
pub open spec fn balanced(s: Seq<u8>) -> bool {
    !dips_below_zero(s) && depth(s) == 0
}

/// The text of a stack of open loop bodies, the outermost first; each inner
/// body follows the `[` that opened it.
pub open spec fn join(frames: Seq<Vec<Statement>>) -> Seq<u8>
    decreases frames.len(),
{
    if frames.len() == 0 {
        Seq::empty()
    } else if frames.len() == 1 {
        render(frames[0]@)
    } else {
        join(frames.drop_last()) + seq![91u8] + render(frames.last()@)
    }
}

proof fn lemma_render_push(p: Seq<Statement>, st: Statement)
    ensures
        render(p.push(st)) == render(p) + render_stmt(st),
        wf(p.push(st)) == (wf(p) && wf_stmt(st)),
{
    assert(p.push(st).subrange(0, p.len() as int) =~= p);
}

proof fn lemma_take_step(s: Seq<u8>, i: int)
    requires
        0 <= i < s.len(),
    ensures
        depth(s.take(i + 1)) == depth(s.take(i)) + nesting(s[i]),
        strip(s.take(i + 1)) == if is_command_byte(s[i]) {
            strip(s.take(i)).push(s[i])
        } else {
            strip(s.take(i))
        },
{
    assert(s.take(i + 1).drop_last() =~= s.take(i));
}

/// The command that a byte stands for.
fn command_of(b: u8) -> (r: Option<Command>)
    ensures
        is_command_byte(b) <==> r is Some,
        r matches Some(c) ==> command_byte(c) == b,
{
    if b == 62u8 {
        Some(Command::Right)
    } else if b == 60u8 {
        Some(Command::Left)
    } else if b == 43u8 {
        Some(Command::Up)
    } else if b == 45u8 {
        Some(Command::Down)
    } else if b == 44u8 {
        Some(Command::In)
    } else if b == 46u8 {
        Some(Command::Out)
    } else if b == 91u8 {
        Some(Command::Begin)
    } else if b == 93u8 {
        Some(Command::End)
    } else {
        None
    }
}

/// Parses source text into a tree; bytes other than the eight commands are
/// comments.
///
/// Succeeds exactly when the brackets are balanced, and then the tree's text
/// is the source without its comments. Otherwise the error is `UnmatchedEnd`
/// when some prefix closes a bracket it never opened, else `UnmatchedBegin`.
pub fn parse_program(input: &[u8]) -> (r: BfResult<Vec<Statement>>)
    ensures
        r is Ok <==> balanced(input@),
        r == Err::<Vec<Statement>, Error>(Error::UnmatchedEnd) <==> dips_below_zero(input@),
        r == Err::<Vec<Statement>, Error>(Error::UnmatchedBegin) <==> !dips_below_zero(input@)
            && depth(input@) != 0,
        r matches Ok(p) ==> render(p@) == strip(input@) && wf(p@),
{
    let mut frames: Vec<Vec<Statement>> = Vec::new();
    frames.push(Vec::new());
    assert(input@.take(0) =~= Seq::<u8>::empty());
    assert(join(frames@) =~= strip(input@.take(0)));
    let mut i: usize = 0;
    while i < input.len()
        invariant
            i <= input.len(),
            frames.len() >= 1,
            join(frames@) == strip(input@.take(i as int)),
            depth(input@.take(i as int)) == frames.len() - 1,
            forall|j: int| 0 <= j <= i ==> #[trigger] depth(input@.take(j)) >= 0,
            forall|k: int| 0 <= k < frames.len() ==> wf(#[trigger] frames@[k]@),
        decreases input.len() - i,
    {
        let b = input[i];
        proof {
            lemma_take_step(input@, i as int);
        }
        let ghost old_frames = frames@;
        match command_of(b) {
            None => {},
            Some(Command::Begin) => {
                frames.push(Vec::new());
                assert(frames@.drop_last() =~= old_frames);
                assert(render(Seq::<Statement>::empty()) =~= Seq::<u8>::empty());
                assert(join(frames@) =~= join(old_frames) + seq![91u8] + render(Seq::empty()));
                assert(join(frames@) =~= strip(input@.take(i + 1)));
            },
            Some(Command::End) => {
                if frames.len() == 1 {
                    assert(depth(input@.take(i + 1)) < 0);
                    assert(dips_below_zero(input@));
                    return Err(Error::UnmatchedEnd);
                }
                let body = match frames.pop() {
                    Some(f) => f,
                    None => Vec::new(),
                };
                let mut parent = match frames.pop() {
                    Some(f) => f,
                    None => Vec::new(),
                };
                let ghost parent_before = parent@;
                let ghost body_view = body@;
                let st = Statement::Loop(body);
                let ghost g = st;
                parent.push(st);
                proof {
                    lemma_render_push(parent_before, g);
                }
                frames.push(parent);
                proof {
                    let n = old_frames.len() as int;
                    assert(body_view == old_frames[n - 1]@);
                    assert(parent_before == old_frames[n - 2]@);
                    assert(render_stmt(g) == seq![91u8] + render(body_view) + seq![93u8]);
                    assert(frames@.drop_last() =~= old_frames.subrange(0, n - 2));
                    assert(old_frames.drop_last().drop_last() =~= old_frames.subrange(0, n - 2));
                    assert(old_frames.drop_last().last() == old_frames[n - 2]);
                    if n == 2 {
                        assert(join(old_frames.drop_last()) == render(old_frames[0]@));
                        assert(join(frames@) == render(frames@[0]@));
                        assert(join(frames@) =~= join(old_frames) + seq![93u8]);
                    } else {
                        assert(join(old_frames.drop_last()) == join(old_frames.subrange(0, n - 2))
                            + seq![91u8] + render(old_frames[n - 2]@));
                        assert(join(frames@) =~= join(old_frames) + seq![93u8]);
                    }
                    assert(forall|k: int|
                        0 <= k < frames.len() - 1 ==> #[trigger] frames@[k] == old_frames[k]);
                }
            },
            Some(c) => {
                let mut top = match frames.pop() {
                    Some(f) => f,
                    None => Vec::new(),
                };
                let ghost top_before = top@;
                top.push(Statement::Cmd(c));
                proof {
                    lemma_render_push(top_before, Statement::Cmd(c));
                }
                frames.push(top);
                proof {
                    assert(frames@.drop_last() =~= old_frames.drop_last());
                    assert(join(frames@) =~= join(old_frames).push(b));
                    assert(forall|k: int|
                        0 <= k < frames.len() - 1 ==> #[trigger] frames@[k] == old_frames[k]);
                }
            },
        }
        i = i + 1;
    }
    assert(input@.take(input.len() as int) =~= input@);
    if frames.len() > 1 {
        return Err(Error::UnmatchedBegin);
    }
    match frames.pop() {
        Some(p) => Ok(p),
        None => Ok(Vec::new()),
    }
}

/// The effect of one command (`Begin` and `End` never stand alone in a tree).
pub open spec fn step_command(c: Command, m: Machine) -> Outcome {
    match c {
        Command::Right => m.move_right(1),
        Command::Left => m.move_left(1),
        Command::Up => Outcome::Done(m.add(1)),
        Command::Down => Outcome::Done(m.sub(1)),
        Command::In => Outcome::Done(m.read()),
        Command::Out => Outcome::Done(m.write()),
        Command::Begin => Outcome::Done(m),
        Command::End => Outcome::Done(m),
    }
}

/// Runs one statement; a loop may repeat its body at most `fuel` times, and
/// each repetition runs with one unit less.
pub open spec fn run_stmt(st: Statement, m: Machine, fuel: nat) -> Outcome
    decreases fuel, st,
{
    match st {
        Statement::Cmd(c) => step_command(c, m),
        Statement::Loop(body) => run_loop(body@, m, fuel),
    }
}

/// Runs statements in order, stopping at the first that does not finish.
pub open spec fn run_seq(p: Seq<Statement>, m: Machine, fuel: nat) -> Outcome
    decreases fuel, p,
{
    if p.len() == 0 {
        Outcome::Done(m)
    } else {
        match run_stmt(p[0], m, fuel) {
            Outcome::Done(next) => run_seq(p.subrange(1, p.len() as int), next, fuel),
            other => other,
        }
    }
}

/// Repeats a loop body while the current cell is nonzero.
pub open spec fn run_loop(body: Seq<Statement>, m: Machine, fuel: nat) -> Outcome
    decreases fuel, body,
{
    if m.cell() == 0 {
        Outcome::Done(m)
    } else if fuel == 0 {
        Outcome::OutOfFuel
    } else {
        match run_seq(body, m, (fuel - 1) as nat) {
            Outcome::Done(next) => run_loop(body, next, (fuel - 1) as nat),
            other => other,
        }
    }
}

proof fn lemma_run_seq_step(p: Seq<Statement>, i: int, m: Machine, fuel: nat)
    requires
        0 <= i < p.len(),
    ensures
        run_seq(p.subrange(i, p.len() as int), m, fuel) == match run_stmt(p[i], m, fuel) {
            Outcome::Done(next) => run_seq(p.subrange(i + 1, p.len() as int), next, fuel),
            other => other,
        },
{
    let s = p.subrange(i, p.len() as int);
    assert(s.subrange(1, s.len() as int) =~= p.subrange(i + 1, p.len() as int));
}

proof fn lemma_wf_index(p: Seq<Statement>, i: int)
    requires
        wf(p),
        0 <= i < p.len(),
    ensures
        wf_stmt(p[i]),
    decreases p.len(),
{
    if i < p.len() - 1 {
        lemma_wf_index(p.subrange(0, p.len() - 1), i);
    }
}

fn interpret_command(c: Command, state: &mut State, rts: &mut RtsState) -> (r: BfResult<()>)
    requires
        old(state).wf(),
        c != Command::Begin && c != Command::End,
    ensures
        final(state).wf(),
        reports(
            step_command(c, machine(*old(state), *old(rts))),
            Some(r),
            machine(*final(state), *final(rts)),
        ),
{
    match c {
        Command::Right => state.right(1),
        Command::Left => state.left(1),
        Command::Up => {
            state.up(1);
            Ok(())
        },
        Command::Down => {
            state.down(1);
            Ok(())
        },
        Command::In => {
            state.read(rts);
            Ok(())
        },
        _ => {
            state.write(rts);
            Ok(())
        },
    }
}

fn interpret_statement(st: &Statement, state: &mut State, rts: &mut RtsState, fuel: u64) -> (r:
    Option<BfResult<()>>)
    requires
        old(state).wf(),
        wf_stmt(*st),
    ensures
        final(state).wf(),
        reports(
            run_stmt(*st, machine(*old(state), *old(rts)), fuel as nat),
            r,
            machine(*final(state), *final(rts)),
        ),
    decreases fuel, st,
{
    match st {
        Statement::Cmd(c) => Some(interpret_command(*c, state, rts)),
        Statement::Loop(body) => {
            let ghost m0 = machine(*state, *rts);
            assert(run_stmt(*st, m0, fuel as nat) == run_loop(body@, m0, fuel as nat));
            let mut f: u64 = fuel;
            loop
                invariant
                    m0 == machine(*old(state), *old(rts)),
                    run_stmt(*st, m0, fuel as nat) == run_loop(body@, m0, fuel as nat),
                    f <= fuel,
                    state.wf(),
                    wf(body@),
                    run_loop(body@, m0, fuel as nat) == run_loop(
                        body@,
                        machine(*state, *rts),
                        f as nat,
                    ),
                decreases f,
            {
                if state.load() == 0 {
                    return Some(Ok(()));
                }
                if f == 0 {
                    return None;
                }
                f = f - 1;
                match interpret(body, state, rts, f) {
                    Some(Ok(())) => {},
                    other => {
                        return other;
                    },
                }
            }
        },
    }
}

fn interpret(program: &Vec<Statement>, state: &mut State, rts: &mut RtsState, fuel: u64) -> (r:
    Option<BfResult<()>>)
    requires
        old(state).wf(),
        wf(program@),
    ensures
        final(state).wf(),
        reports(
            run_seq(program@, machine(*old(state), *old(rts)), fuel as nat),
            r,
            machine(*final(state), *final(rts)),
        ),
    decreases fuel, program,
{
    let ghost m0 = machine(*state, *rts);
    let mut i: usize = 0;
    assert(program@.subrange(0, program@.len() as int) =~= program@);
    while i < program.len()
        invariant
            m0 == machine(*old(state), *old(rts)),
            i <= program.len(),
            state.wf(),
            wf(program@),
            run_seq(program@, m0, fuel as nat) == run_seq(
                program@.subrange(i as int, program@.len() as int),
                machine(*state, *rts),
                fuel as nat,
            ),
        decreases program.len() - i,
    {
        proof {
            lemma_run_seq_step(program@, i as int, machine(*state, *rts), fuel as nat);
            lemma_wf_index(program@, i as int);
        }
        match interpret_statement(&program[i], state, rts, fuel) {
            Some(Ok(())) => {},
            other => {
                return other;
            },
        }
        i = i + 1;
    }
    Some(Ok(()))
}

impl Interpretable for Vec<Statement> {
    open spec fn runnable(&self) -> bool {
        wf(self@)
    }

    open spec fn outcome(&self, m: Machine, fuel: nat) -> Outcome {
        run_seq(self@, m, fuel)
    }

    fn interpret_state(&self, state: &mut State, rts: &mut RtsState, fuel: u64) -> (r: Option<
        BfResult<()>,
    >) {
        interpret(self, state, rts, fuel)
    }
}

/// The shape of a tree, as a mathematical value.
pub enum Op {
    Cmd(Command),
    Loop(Seq<Op>),
}

/// The shape of a statement.
pub open spec fn shape(st: Statement) -> Op
    decreases st,
{
    match st {
        Statement::Cmd(c) => Op::Cmd(c),
        Statement::Loop(body) => Op::Loop(shapes(body@)),
    }
}

/// The shapes of a sequence of statements.
pub open spec fn shapes(p: Seq<Statement>) -> Seq<Op>
    decreases p,
{
    if p.len() == 0 {
        Seq::empty()
    } else {
        shapes(p.subrange(0, p.len() - 1)).push(shape(p[p.len() - 1]))
    }
}

/// Runs one step of a shape, as [`run_stmt`] runs a statement.
pub open spec fn run_op(o: Op, m: Machine, fuel: nat) -> Outcome
    decreases fuel, o,
{
    match o {
        Op::Cmd(c) => step_command(c, m),
        Op::Loop(body) => run_op_loop(body, m, fuel),
    }
}

/// Runs a sequence of shapes, as [`run_seq`] runs statements.
pub open spec fn run_ops(p: Seq<Op>, m: Machine, fuel: nat) -> Outcome
    decreases fuel, p,
{
    if p.len() == 0 {
        Outcome::Done(m)
    } else {
        match run_op(p[0], m, fuel) {
            Outcome::Done(next) => run_ops(p.subrange(1, p.len() as int), next, fuel),
            other => other,
        }
    }
}

/// Repeats a loop body of shapes, as [`run_loop`] does.
pub open spec fn run_op_loop(body: Seq<Op>, m: Machine, fuel: nat) -> Outcome
    decreases fuel, body,
{
    if m.cell() == 0 {
        Outcome::Done(m)
    } else if fuel == 0 {
        Outcome::OutOfFuel
    } else {
        match run_ops(body, m, (fuel - 1) as nat) {
            Outcome::Done(next) => run_op_loop(body, next, (fuel - 1) as nat),
            other => other,
        }
    }
}

/// The shape of a sequence holds the shape of each statement.
pub proof fn lemma_shapes_index(p: Seq<Statement>, i: int)
    requires
        0 <= i < p.len(),
    ensures
        shapes(p).len() == p.len(),
        shapes(p)[i] == shape(p[i]),
    decreases p.len(),
{
    lemma_shapes_len(p);
    if i < p.len() - 1 {
        lemma_shapes_index(p.subrange(0, p.len() - 1), i);
    }
}

/// The shape of a sequence has one entry per statement.
pub proof fn lemma_shapes_len(p: Seq<Statement>)
    ensures
        shapes(p).len() == p.len(),
    decreases p.len(),
{
    if p.len() > 0 {
        lemma_shapes_len(p.subrange(0, p.len() - 1));
    }
}

proof fn lemma_shapes_rest(p: Seq<Statement>)
    requires
        p.len() > 0,
    ensures
        shapes(p)[0] == shape(p[0]),
        shapes(p).subrange(1, p.len() as int) == shapes(p.subrange(1, p.len() as int)),
{
    let rest = p.subrange(1, p.len() as int);
    lemma_shapes_index(p, 0);
    lemma_shapes_len(rest);
    assert forall|i: int| 0 <= i < rest.len() implies #[trigger] shapes(rest)[i] == shapes(p)[i
        + 1] by {
        lemma_shapes_index(rest, i);
        lemma_shapes_index(p, i + 1);
    }
    assert(shapes(p).subrange(1, p.len() as int) =~= shapes(rest));
}

/// A tree runs exactly as its shape does.
pub proof fn lemma_run_shapes(p: Seq<Statement>, m: Machine, fuel: nat)
    ensures
        run_seq(p, m, fuel) == run_ops(shapes(p), m, fuel),
    decreases fuel, p,
{
    lemma_shapes_len(p);
    if p.len() > 0 {
        lemma_shapes_rest(p);
        lemma_run_shape(p[0], m, fuel);
        let q = shapes(p);
        assert(q.len() > 0);
        assert(run_ops(q, m, fuel) == match run_op(q[0], m, fuel) {
            Outcome::Done(next) => run_ops(q.subrange(1, q.len() as int), next, fuel),
            other => other,
        });
        if let Outcome::Done(next) = run_stmt(p[0], m, fuel) {
            lemma_run_shapes(p.subrange(1, p.len() as int), next, fuel);
        }
    } else {
        assert(shapes(p) =~= Seq::<Op>::empty());
    }
}

proof fn lemma_run_shape(st: Statement, m: Machine, fuel: nat)
    ensures
        run_stmt(st, m, fuel) == run_op(shape(st), m, fuel),
    decreases fuel, st,
{
    if let Statement::Loop(body) = st {
        lemma_run_shape_loop(body@, m, fuel);
    }
}

proof fn lemma_run_shape_loop(body: Seq<Statement>, m: Machine, fuel: nat)
    ensures
        run_loop(body, m, fuel) == run_op_loop(shapes(body), m, fuel),
    decreases fuel, body,
{
    if m.cell() != 0 && fuel > 0 {
        let f = (fuel - 1) as nat;
        lemma_run_shapes(body, m, f);
        if let Outcome::Done(next) = run_seq(body, m, f) {
            lemma_run_shape_loop(body, next, f);
        }
    }
}

} // verus!
