//! Flat bytecode: the peephole tree laid out as a vector, with each loop
//! turned into a `JumpZero` at its head and a `JumpNotZero` at its tail that
//! hold each other's index.

use vstd::prelude::*;

use crate::common::{BfResult, Count, Instruction};
use crate::peephole::{
    self, execute, run_tree, run_tree_loop, run_trees, step_instr, tree, tree_ok, trees, trees_ok, Tree,
};
use crate::rts::RtsState;
use crate::state::{machine, reports, Machine, Outcome, State};
use crate::traits::Interpretable;

verus! {

/// The bytecode of a sequence of trees laid out from index `base`.
pub open spec fn flatten(ts: Seq<Tree>, base: int) -> Seq<Instruction>
    decreases ts,
{
    if ts.len() == 0 {
        Seq::empty()
    } else {
        let front = flatten(ts.subrange(0, ts.len() - 1), base);
        front + flatten_tree(ts[ts.len() - 1], base + front.len())
    }
}

/// The bytecode of one tree laid out from index `at`.
pub open spec fn flatten_tree(t: Tree, at: int) -> Seq<Instruction>
    decreases t,
{
    match t {
        Tree::Op(i) => seq![i],
        Tree::Block(body) => {
            let inner = flatten(body, at + 1);
            seq![Instruction::JumpZero((at + 1 + inner.len()) as usize)] + inner + seq![
                Instruction::JumpNotZero(at as usize),
            ]
        },
    }
}

/// Within `lo..hi`, every jump targets an index of the same range that holds
/// its partner, which targets it back.
pub open spec fn paired_in(code: Seq<Instruction>, lo: int, hi: int) -> bool {
    forall|b: int|
        lo <= b < hi ==> match #[trigger] code[b] {
            Instruction::JumpZero(e) => lo <= e < hi && code[e as int] == Instruction::JumpNotZero(
                b as usize,
            ),
            Instruction::JumpNotZero(e) => lo <= e < hi && code[e as int] == Instruction::JumpZero(
                b as usize,
            ),
            _ => true,
        }
}

/// Every `JumpZero(e)` at index `b` has `JumpNotZero(b)` at index `e`, and
/// the reverse; no jump leaves the program.
pub open spec fn paired(code: Seq<Instruction>) -> bool {
    paired_in(code, 0, code.len() as int)
}

/// Runnable bytecode: paired jumps, and tree instructions elsewhere.
pub open spec fn wf(code: Seq<Instruction>) -> bool {
    &&& paired(code)
    &&& forall|i: int| 0 <= i < code.len() && !(#[trigger] code[i]).is_jump() ==> code[i].tree_wf()
}

/// Converts an index to a jump address.
pub fn usize_to_count(count: usize) -> (r: Count)
    ensures
        r == count,
{
    count
}

proof fn lemma_trees_take(p: Seq<peephole::Statement>, i: int)
    requires
        0 <= i < p.len(),
    ensures
        trees(p.take(i + 1)) == trees(p.take(i)).push(tree(p[i])),
        peephole::wf(p.take(i + 1)) == (peephole::wf(p.take(i)) && peephole::wf_stmt(p[i])),
{
    assert(p.take(i + 1).subrange(0, i) =~= p.take(i));
}

proof fn lemma_flatten_push(ts: Seq<Tree>, t: Tree, base: int)
    ensures
        flatten(ts.push(t), base) == flatten(ts, base) + flatten_tree(
            t,
            base + flatten(ts, base).len(),
        ),
{
    assert(ts.push(t).subrange(0, ts.len() as int) =~= ts);
}

proof fn lemma_wf_take(p: Seq<peephole::Statement>, i: int)
    requires
        peephole::wf(p),
        0 <= i <= p.len(),
    ensures
        peephole::wf(p.take(i)),
    decreases p.len() - i,
{
    if i < p.len() {
        lemma_wf_take(p, i + 1);
        lemma_trees_take(p, i);
    } else {
        assert(p.take(i) =~= p);
    }
}

/// Appends the bytecode of `src`, laid out from the current end of `out`.
fn emit(src: &Vec<peephole::Statement>, out: &mut Vec<Instruction>)
    requires
        peephole::wf(src@),
    ensures
        final(out)@ == old(out)@ + flatten(trees(src@), old(out)@.len() as int),
        paired_in(final(out)@, old(out)@.len() as int, final(out)@.len() as int),
        forall|i: int|
            old(out)@.len() <= i < final(out)@.len() && !(#[trigger] final(out)@[i]).is_jump()
                ==> final(out)@[i].tree_wf(),
    decreases src,
{
    let start = out.len();
    let ghost base = out@;
    let mut k: usize = 0;
    assert(src@.take(0) =~= Seq::<peephole::Statement>::empty());
    assert(trees(src@.take(0)) =~= Seq::<Tree>::empty());
    assert(out@ =~= base + flatten(trees(src@.take(0)), start as int));
    while k < src.len()
        invariant
            k <= src.len(),
            start == base.len(),
            peephole::wf(src@),
            out@ == base + flatten(trees(src@.take(k as int)), start as int),
            paired_in(out@, start as int, out@.len() as int),
            forall|i: int|
                start <= i < out@.len() && !(#[trigger] out@[i]).is_jump() ==> out@[i].tree_wf(),
        decreases src.len() - k,
    {
        proof {
            lemma_trees_take(src@, k as int);
            lemma_wf_take(src@, k as int + 1);
            lemma_flatten_push(trees(src@.take(k as int)), tree(src@[k as int]), start as int);
        }
        let ghost before = out@;
        match &src[k] {
            peephole::Statement::Instr(ins) => {
                out.push(*ins);
                assert(out@ =~= before + flatten_tree(tree(src@[k as int]), before.len() as int));
                assert(paired_in(out@, start as int, out@.len() as int)) by {
                    assert forall|b: int| start <= b < out@.len() implies match #[trigger] out@[b] {
                        Instruction::JumpZero(e) => start <= e < out@.len() && out@[e as int]
                            == Instruction::JumpNotZero(b as usize),
                        Instruction::JumpNotZero(e) => start <= e < out@.len() && out@[e as int]
                            == Instruction::JumpZero(b as usize),
                        _ => true,
                    } by {
                        if b < before.len() {
                            assert(out@[b] == before[b]);
                        }
                    }
                }
            },
            peephole::Statement::Loop(body) => {
                let begin = out.len();
                out.push(Instruction::JumpZero(0));
                let ghost opened = out@;
                emit(body, out);
                let end = out.len();
                out.push(Instruction::JumpNotZero(usize_to_count(begin)));
                out.set(begin, Instruction::JumpZero(usize_to_count(end)));
                proof {
                    let inner = flatten(trees(body@), begin as int + 1);
                    assert(opened.len() == begin + 1);
                    assert(out@ =~= before + flatten_tree(tree(src@[k as int]), before.len() as int));
                    assert forall|b: int| start <= b < out@.len() implies match #[trigger] out@[b] {
                        Instruction::JumpZero(e) => start <= e < out@.len() && out@[e as int]
                            == Instruction::JumpNotZero(b as usize),
                        Instruction::JumpNotZero(e) => start <= e < out@.len() && out@[e as int]
                            == Instruction::JumpZero(b as usize),
                        _ => true,
                    } by {
                        if b < begin {
                            assert(out@[b] == before[b]);
                            match before[b] {
                                Instruction::JumpZero(e) => {
                                    assert(out@[e as int] == before[e as int]);
                                },
                                Instruction::JumpNotZero(e) => {
                                    assert(out@[e as int] == before[e as int]);
                                },
                                _ => {},
                            }
                        } else if begin < b < end {
                            assert(out@[b] == inner[b - begin - 1]);
                        }
                    }
                    assert forall|i: int|
                        start <= i < out@.len() && !(#[trigger] out@[i]).is_jump() implies out@[i].tree_wf() by {
                        if i < begin {
                            assert(out@[i] == before[i]);
                        }
                    }
                }
            },
        }
        k = k + 1;
    }
    assert(src@.take(src.len() as int) =~= src@);
}

/// Flattens a peephole tree into bytecode.
pub fn compile(src: &Vec<peephole::Statement>) -> (r: Vec<Instruction>)
    requires
        peephole::wf(src@),
    ensures
        r@ == flatten(trees(src@), 0),
        wf(r@),
{
    let mut out: Vec<Instruction> = Vec::new();
    emit(src, &mut out);
    assert(out@ =~= flatten(trees(src@), 0));
    out
}

/// Runs bytecode from index `pc`; every executed instruction costs one unit
/// of `fuel`. A taken jump continues just past its target.
pub open spec fn run(code: Seq<Instruction>, pc: int, m: Machine, fuel: nat) -> Outcome
    decreases fuel,
{
    if pc < 0 || pc >= code.len() {
        Outcome::Done(m)
    } else if fuel == 0 {
        Outcome::OutOfFuel
    } else {
        let rest = (fuel - 1) as nat;
        match code[pc] {
            Instruction::JumpZero(a) => if m.cell() == 0 {
                run(code, a + 1, m, rest)
            } else {
                run(code, pc + 1, m, rest)
            },
            Instruction::JumpNotZero(a) => if m.cell() != 0 {
                run(code, a + 1, m, rest)
            } else {
                run(code, pc + 1, m, rest)
            },
            ins => match step_instr(ins, m) {
                Outcome::Done(next) => run(code, pc + 1, next, rest),
                other => other,
            },
        }
    }
}

/// Runs bytecode on a tape and a pair of channels.
pub fn interpret(code: &Vec<Instruction>, state: &mut State, rts: &mut RtsState, fuel: u64) -> (r:
    Option<BfResult<()>>)
    requires
        old(state).wf(),
        wf(code@),
    ensures
        final(state).wf(),
        reports(
            run(code@, 0, machine(*old(state), *old(rts)), fuel as nat),
            r,
            machine(*final(state), *final(rts)),
        ),
{
    let ghost m0 = machine(*state, *rts);
    let mut pc: usize = 0;
    let mut f: u64 = fuel;
    while pc < code.len()
        invariant
            m0 == machine(*old(state), *old(rts)),
            wf(code@),
            state.wf(),
            pc <= code.len(),
            run(code@, 0, m0, fuel as nat) == run(code@, pc as int, machine(*state, *rts), f as nat),
        decreases f,
    {
        if f == 0 {
            return None;
        }
        f = f - 1;
        let ins = code[pc];
        match ins {
            Instruction::JumpZero(a) => {
                if state.load() == 0 {
                    pc = a;
                }
            },
            Instruction::JumpNotZero(a) => {
                if state.load() != 0 {
                    pc = a;
                }
            },
            _ => {
                match execute(ins, state, rts) {
                    Ok(()) => {},
                    Err(e) => {
                        return Some(Err(e));
                    },
                }
            },
        }
        pc = pc + 1;
    }
    Some(Ok(()))
}

impl Interpretable for Vec<Instruction> {
    open spec fn runnable(&self) -> bool {
        wf(self@)
    }

    open spec fn outcome(&self, m: Machine, fuel: nat) -> Outcome {
        run(self@, 0, m, fuel)
    }

    fn interpret_state(&self, state: &mut State, rts: &mut RtsState, fuel: u64) -> (r: Option<
        BfResult<()>,
    >) {
        interpret(self, state, rts, fuel)
    }
}

/// The number of bytecode steps that running a tree takes (meaningful when
/// the tree run does not run out of budget).
pub open spec fn cost_tree(t: Tree, m: Machine, fuel: nat) -> nat
    decreases fuel, t,
{
    match t {
        Tree::Op(_) => 1,
        Tree::Block(body) => cost_loop(body, m, fuel),
    }
}

/// The number of bytecode steps that running a sequence of trees takes.
pub open spec fn cost_trees(p: Seq<Tree>, m: Machine, fuel: nat) -> nat
    decreases fuel, p,
{
    if p.len() == 0 {
        0
    } else {
        let front = p.subrange(0, p.len() - 1);
        cost_trees(front, m, fuel) + match run_trees(front, m, fuel) {
            Outcome::Done(next) => cost_tree(p[p.len() - 1], next, fuel),
            _ => 0,
        }
    }
}

/// The number of bytecode steps that a loop takes: the test at its head,
/// then for each iteration the body and the test at its tail.
pub open spec fn cost_loop(body: Seq<Tree>, m: Machine, fuel: nat) -> nat
    decreases fuel, body,
{
    if m.cell() == 0 {
        1
    } else if fuel == 0 {
        0
    } else {
        let f = (fuel - 1) as nat;
        1 + cost_trees(body, m, f) + match run_trees(body, m, f) {
            Outcome::Done(next) => cost_loop(body, next, f),
            _ => 0,
        }
    }
}

proof fn lemma_trees_split(p: Seq<Tree>, m: Machine, fuel: nat)
    requires
        p.len() > 0,
    ensures
        run_trees(p, m, fuel) == match run_trees(p.subrange(0, p.len() - 1), m, fuel) {
            Outcome::Done(next) => run_tree(p[p.len() - 1], next, fuel),
            other => other,
        },
        trees_ok(p) ==> trees_ok(p.subrange(0, p.len() - 1)) && tree_ok(p[p.len() - 1]),
{
    let front = p.subrange(0, p.len() - 1);
    let last = p[p.len() - 1];
    assert(p =~= front + seq![last]);
    peephole::lemma_run_trees_append(front, seq![last], m, fuel);
    if let Outcome::Done(next) = run_trees(front, m, fuel) {
        peephole::lemma_run_trees_single(last, next, fuel);
    }
}

proof fn lemma_segment(code: Seq<Instruction>, b: int, whole: Seq<Instruction>, i: int, j: int)
    requires
        0 <= b,
        b + whole.len() <= code.len(),
        code.subrange(b, b + whole.len()) == whole,
        0 <= i <= j <= whole.len(),
    ensures
        code.subrange(b + i, b + j) == whole.subrange(i, j),
{
    assert(code.subrange(b + i, b + j) =~= whole.subrange(i, j)) by {
        assert forall|k: int| 0 <= k < j - i implies code.subrange(b + i, b + j)[k] == whole.subrange(i, j)[k] by {
            assert(code[b + i + k] == code.subrange(b, b + whole.len())[i + k]);
        }
    }
}

/// The tail test of a loop behaves as its head test.
proof fn lemma_tail_is_head(code: Seq<Instruction>, h: int, e: int, m: Machine, g: nat)
    requires
        0 <= h < e < code.len(),
        code.len() <= usize::MAX,
        code[h] == Instruction::JumpZero(e as usize),
        code[e] == Instruction::JumpNotZero(h as usize),
        g >= 1,
    ensures
        run(code, e, m, g) == run(code, h, m, g),
{
}

proof fn lemma_sim_tree(code: Seq<Instruction>, t: Tree, at: int, m: Machine, fuel: nat, extra: nat)
    requires
        code.len() <= usize::MAX,
        0 <= at,
        at + flatten_tree(t, at).len() <= code.len(),
        code.subrange(at, at + flatten_tree(t, at).len()) == flatten_tree(t, at),
        tree_ok(t),
        !(run_tree(t, m, fuel) is OutOfFuel),
    ensures
        match run_tree(t, m, fuel) {
            Outcome::Done(x) => run(code, at, m, extra + cost_tree(t, m, fuel)) == run(
                code,
                at + flatten_tree(t, at).len(),
                x,
                extra,
            ),
            other => run(code, at, m, extra + cost_tree(t, m, fuel)) == other,
        },
    decreases fuel, t,
{
    match t {
        Tree::Op(i) => {
            assert(code[at] == flatten_tree(t, at)[0]);
        },
        Tree::Block(body) => {
            let inner = flatten(body, at + 1);
            let whole = flatten_tree(t, at);
            let e = at + 1 + inner.len();
            assert(code[at] == whole[0]);
            assert(code[e] == whole[whole.len() - 1]);
            lemma_segment(code, at, whole, 1, 1 + inner.len() as int);
            assert(whole.subrange(1, 1 + inner.len() as int) =~= inner);
            lemma_sim_loop(code, body, at, m, fuel, extra);
        },
    }
}

proof fn lemma_sim_loop(code: Seq<Instruction>, body: Seq<Tree>, h: int, m: Machine, fuel: nat, extra: nat)
    requires
        code.len() <= usize::MAX,
        0 <= h,
        h + 1 + flatten(body, h + 1).len() < code.len(),
        code[h] == Instruction::JumpZero((h + 1 + flatten(body, h + 1).len()) as usize),
        code.subrange(h + 1, h + 1 + flatten(body, h + 1).len()) == flatten(body, h + 1),
        code[h + 1 + flatten(body, h + 1).len()] == Instruction::JumpNotZero(h as usize),
        trees_ok(body),
        !(run_tree_loop(body, m, fuel) is OutOfFuel),
    ensures
        ({
            let e = h + 1 + flatten(body, h + 1).len();
            match run_tree_loop(body, m, fuel) {
                Outcome::Done(x) => run(code, h, m, extra + cost_loop(body, m, fuel)) == run(
                    code,
                    e + 1,
                    x,
                    extra,
                ),
                other => run(code, h, m, extra + cost_loop(body, m, fuel)) == other,
            }
        }),
    decreases fuel, body,
{
    let e = h + 1 + flatten(body, h + 1).len();
    if m.cell() != 0 {
        let f = (fuel - 1) as nat;
        match run_trees(body, m, f) {
            Outcome::Done(next) => {
                let rest = cost_loop(body, next, f);
                assert(run_tree_loop(body, m, fuel) == run_tree_loop(body, next, f));
                assert(rest >= 1);
                lemma_sim_seq(code, body, h + 1, m, f, extra + rest);
                lemma_tail_is_head(code, h, e, next, extra + rest);
                lemma_sim_loop(code, body, h, next, f, extra);
            },
            _ => {
                lemma_sim_seq(code, body, h + 1, m, f, extra);
            },
        }
    }
}

proof fn lemma_sim_seq(code: Seq<Instruction>, ts: Seq<Tree>, b: int, m: Machine, fuel: nat, extra: nat)
    requires
        code.len() <= usize::MAX,
        0 <= b,
        b + flatten(ts, b).len() <= code.len(),
        code.subrange(b, b + flatten(ts, b).len()) == flatten(ts, b),
        trees_ok(ts),
        !(run_trees(ts, m, fuel) is OutOfFuel),
    ensures
        match run_trees(ts, m, fuel) {
            Outcome::Done(x) => run(code, b, m, extra + cost_trees(ts, m, fuel)) == run(
                code,
                b + flatten(ts, b).len(),
                x,
                extra,
            ),
            other => run(code, b, m, extra + cost_trees(ts, m, fuel)) == other,
        },
    decreases fuel, ts,
{
    if ts.len() > 0 {
        let front = ts.subrange(0, ts.len() - 1);
        let last = ts[ts.len() - 1];
        let ff = flatten(front, b);
        let whole = flatten(ts, b);
        lemma_trees_split(ts, m, fuel);
        lemma_segment(code, b, whole, 0, ff.len() as int);
        assert(whole.subrange(0, ff.len() as int) =~= ff);
        match run_trees(front, m, fuel) {
            Outcome::Done(x) => {
                let c_last = cost_tree(last, x, fuel);
                lemma_sim_seq(code, front, b, m, fuel, extra + c_last);
                let lt = flatten_tree(last, b + ff.len());
                lemma_segment(code, b, whole, ff.len() as int, whole.len() as int);
                assert(whole.subrange(ff.len() as int, whole.len() as int) =~= lt);
                lemma_sim_tree(code, last, b + ff.len(), x, fuel, extra);
            },
            _ => {
                lemma_sim_seq(code, front, b, m, fuel, extra);
            },
        }
    }
}

/// Flattening keeps meaning: when a peephole tree halts or fails within its
/// budget, its bytecode (the flattening of its shape, as [`compile`]
/// returns) ends the same way for every step budget from
/// `cost_trees(trees(p), m, fuel)` on.
pub proof fn flattening_preserves_meaning(
    p: Seq<peephole::Statement>,
    code: Seq<Instruction>,
    m: Machine,
    fuel: nat,
    budget: nat,
)
    requires
        peephole::wf(p),
        code == flatten(trees(p), 0),
        code.len() <= usize::MAX,
        !(peephole::run_seq(p, m, fuel) is OutOfFuel),
        budget >= cost_trees(trees(p), m, fuel),
    ensures
        run(code, 0, m, budget) == peephole::run_seq(p, m, fuel),
{
    let ts = trees(p);
    peephole::lemma_run_trees(p, m, fuel);
    peephole::lemma_wf_trees_ok(p);
    assert(code.subrange(0, code.len() as int) =~= code);
    let extra = (budget - cost_trees(ts, m, fuel)) as nat;
    lemma_sim_seq(code, ts, 0, m, fuel, extra);
}

proof fn lemma_block_code(code: Seq<Instruction>, t: Tree, at: int)
    requires
        t is Block,
        code.len() <= usize::MAX,
        0 <= at,
        at + flatten_tree(t, at).len() <= code.len(),
        code.subrange(at, at + flatten_tree(t, at).len()) == flatten_tree(t, at),
        tree_ok(t),
    ensures
        ({
            let body = t->Block_0;
            let inner = flatten(body, at + 1);
            let e = at + 1 + inner.len();
            &&& e < code.len()
            &&& code[at] == Instruction::JumpZero(e as usize)
            &&& code.subrange(at + 1, e) == inner
            &&& code[e] == Instruction::JumpNotZero(at as usize)
        }),
{
    let body = t->Block_0;
    let inner = flatten(body, at + 1);
    let whole = flatten_tree(t, at);
    let e = at + 1 + inner.len();
    assert(code[at] == whole[0]);
    assert(code[e] == whole[whole.len() - 1]);
    lemma_segment(code, at, whole, 1, 1 + inner.len() as int);
    assert(whole.subrange(1, 1 + inner.len() as int) =~= inner);
}

proof fn lemma_short_seq(code: Seq<Instruction>, ts: Seq<Tree>, b: int, m: Machine, fuel: nat, g: nat)
    requires
        code.len() <= usize::MAX,
        0 <= b,
        b + flatten(ts, b).len() <= code.len(),
        code.subrange(b, b + flatten(ts, b).len()) == flatten(ts, b),
        trees_ok(ts),
        !(run_trees(ts, m, fuel) is OutOfFuel),
        g < cost_trees(ts, m, fuel),
    ensures
        run(code, b, m, g) is OutOfFuel,
    decreases fuel, ts,
{
    let front = ts.subrange(0, ts.len() - 1);
    let last = ts[ts.len() - 1];
    let ff = flatten(front, b);
    let whole = flatten(ts, b);
    lemma_trees_split(ts, m, fuel);
    lemma_segment(code, b, whole, 0, ff.len() as int);
    assert(whole.subrange(0, ff.len() as int) =~= ff);
    let cf = cost_trees(front, m, fuel);
    if g < cf {
        lemma_short_seq(code, front, b, m, fuel, g);
    } else if let Outcome::Done(x) = run_trees(front, m, fuel) {
        lemma_sim_seq(code, front, b, m, fuel, (g - cf) as nat);
        let lt = flatten_tree(last, b + ff.len());
        lemma_segment(code, b, whole, ff.len() as int, whole.len() as int);
        assert(whole.subrange(ff.len() as int, whole.len() as int) =~= lt);
        lemma_short_tree(code, last, b + ff.len(), x, fuel, (g - cf) as nat);
    }
}

proof fn lemma_short_tree(code: Seq<Instruction>, t: Tree, at: int, m: Machine, fuel: nat, g: nat)
    requires
        code.len() <= usize::MAX,
        0 <= at,
        at + flatten_tree(t, at).len() <= code.len(),
        code.subrange(at, at + flatten_tree(t, at).len()) == flatten_tree(t, at),
        tree_ok(t),
        !(run_tree(t, m, fuel) is OutOfFuel),
        g < cost_tree(t, m, fuel),
    ensures
        run(code, at, m, g) is OutOfFuel,
    decreases fuel, t,
{
    if let Tree::Block(body) = t {
        lemma_block_code(code, t, at);
        lemma_short_loop(code, body, at, m, fuel, g);
    }
}

proof fn lemma_short_loop(code: Seq<Instruction>, body: Seq<Tree>, h: int, m: Machine, fuel: nat, g: nat)
    requires
        code.len() <= usize::MAX,
        0 <= h,
        h + 1 + flatten(body, h + 1).len() < code.len(),
        code[h] == Instruction::JumpZero((h + 1 + flatten(body, h + 1).len()) as usize),
        code.subrange(h + 1, h + 1 + flatten(body, h + 1).len()) == flatten(body, h + 1),
        code[h + 1 + flatten(body, h + 1).len()] == Instruction::JumpNotZero(h as usize),
        trees_ok(body),
        !(run_tree_loop(body, m, fuel) is OutOfFuel),
        g < cost_loop(body, m, fuel),
    ensures
        run(code, h, m, g) is OutOfFuel,
    decreases fuel, body,
{
    let e = h + 1 + flatten(body, h + 1).len();
    if m.cell() != 0 && g >= 1 {
        let f = (fuel - 1) as nat;
        let cb = cost_trees(body, m, f);
        let g1 = (g - 1) as nat;
        if g1 < cb {
            lemma_short_seq(code, body, h + 1, m, f, g1);
        } else if let Outcome::Done(x) = run_trees(body, m, f) {
            assert(run_tree_loop(body, m, fuel) == run_tree_loop(body, x, f));
            lemma_sim_seq(code, body, h + 1, m, f, (g1 - cb) as nat);
            if g1 - cb >= 1 {
                lemma_tail_is_head(code, h, e, x, (g1 - cb) as nat);
                lemma_short_loop(code, body, h, x, f, (g1 - cb) as nat);
            }
        }
    }
}

proof fn lemma_oof_seq(code: Seq<Instruction>, ts: Seq<Tree>, b: int, m: Machine, fuel: nat, g: nat)
    requires
        code.len() <= usize::MAX,
        0 <= b,
        b + flatten(ts, b).len() <= code.len(),
        code.subrange(b, b + flatten(ts, b).len()) == flatten(ts, b),
        trees_ok(ts),
        run_trees(ts, m, fuel) is OutOfFuel,
        g <= fuel,
    ensures
        run(code, b, m, g) is OutOfFuel,
    decreases fuel, ts,
{
    let front = ts.subrange(0, ts.len() - 1);
    let last = ts[ts.len() - 1];
    let ff = flatten(front, b);
    let whole = flatten(ts, b);
    lemma_trees_split(ts, m, fuel);
    lemma_segment(code, b, whole, 0, ff.len() as int);
    assert(whole.subrange(0, ff.len() as int) =~= ff);
    match run_trees(front, m, fuel) {
        Outcome::Done(x) => {
            let cf = cost_trees(front, m, fuel);
            if g < cf {
                lemma_short_seq(code, front, b, m, fuel, g);
            } else {
                lemma_sim_seq(code, front, b, m, fuel, (g - cf) as nat);
                let lt = flatten_tree(last, b + ff.len());
                lemma_segment(code, b, whole, ff.len() as int, whole.len() as int);
                assert(whole.subrange(ff.len() as int, whole.len() as int) =~= lt);
                lemma_oof_tree(code, last, b + ff.len(), x, fuel, (g - cf) as nat);
            }
        },
        _ => {
            lemma_oof_seq(code, front, b, m, fuel, g);
        },
    }
}

proof fn lemma_oof_tree(code: Seq<Instruction>, t: Tree, at: int, m: Machine, fuel: nat, g: nat)
    requires
        code.len() <= usize::MAX,
        0 <= at,
        at + flatten_tree(t, at).len() <= code.len(),
        code.subrange(at, at + flatten_tree(t, at).len()) == flatten_tree(t, at),
        tree_ok(t),
        run_tree(t, m, fuel) is OutOfFuel,
        g <= fuel,
    ensures
        run(code, at, m, g) is OutOfFuel,
    decreases fuel, t,
{
    match t {
        Tree::Block(body) => {
            lemma_block_code(code, t, at);
            lemma_oof_loop(code, body, at, m, fuel, g);
        },
        Tree::Op(i) => {
            lemma_step_ends(i, m);
        },
    }
}

proof fn lemma_find_zero_right_ends(m: Machine, n: int)
    ensures
        !(m.find_zero_right(n) is OutOfFuel),
    decreases m.tape.len() - m.pos,
{
    if m.wf() && n >= 1 && m.cell() != 0 {
        if let Outcome::Done(next) = m.move_right(n) {
            lemma_find_zero_right_ends(next, n);
        }
    }
}

proof fn lemma_find_zero_left_ends(m: Machine, n: int)
    ensures
        !(m.find_zero_left(n) is OutOfFuel),
    decreases m.pos,
{
    if m.wf() && n >= 1 && m.cell() != 0 {
        if let Outcome::Done(next) = m.move_left(n) {
            lemma_find_zero_left_ends(next, n);
        }
    }
}

/// A single instruction never runs out of budget.
proof fn lemma_step_ends(i: Instruction, m: Machine)
    ensures
        !(step_instr(i, m) is OutOfFuel),
{
    match i {
        Instruction::FindZeroRight(n) => lemma_find_zero_right_ends(m, n as int),
        Instruction::FindZeroLeft(n) => lemma_find_zero_left_ends(m, n as int),
        _ => {},
    }
}

proof fn lemma_oof_loop(code: Seq<Instruction>, body: Seq<Tree>, h: int, m: Machine, fuel: nat, g: nat)
    requires
        code.len() <= usize::MAX,
        0 <= h,
        h + 1 + flatten(body, h + 1).len() < code.len(),
        code[h] == Instruction::JumpZero((h + 1 + flatten(body, h + 1).len()) as usize),
        code.subrange(h + 1, h + 1 + flatten(body, h + 1).len()) == flatten(body, h + 1),
        code[h + 1 + flatten(body, h + 1).len()] == Instruction::JumpNotZero(h as usize),
        trees_ok(body),
        run_tree_loop(body, m, fuel) is OutOfFuel,
        g <= fuel,
    ensures
        run(code, h, m, g) is OutOfFuel,
    decreases fuel, body,
{
    let e = h + 1 + flatten(body, h + 1).len();
    if g >= 1 {
        let f = (fuel - 1) as nat;
        let g1 = (g - 1) as nat;
        match run_trees(body, m, f) {
            Outcome::Done(x) => {
                let cb = cost_trees(body, m, f);
                if g1 < cb {
                    lemma_short_seq(code, body, h + 1, m, f, g1);
                } else {
                    lemma_sim_seq(code, body, h + 1, m, f, (g1 - cb) as nat);
                    if g1 - cb >= 1 {
                        lemma_tail_is_head(code, h, e, x, (g1 - cb) as nat);
                        lemma_oof_loop(code, body, h, x, f, (g1 - cb) as nat);
                    }
                }
            },
            _ => {
                lemma_oof_seq(code, body, h + 1, m, f, g1);
            },
        }
    }
}

/// Flattening keeps divergence as well: when the bytecode halts or fails
/// within step budget `budget`, the peephole tree halts or fails within
/// loop budget `budget`, and the two end the same way.
pub proof fn flattened_halts_only_if_tree_halts(
    p: Seq<peephole::Statement>,
    code: Seq<Instruction>,
    m: Machine,
    budget: nat,
)
    requires
        peephole::wf(p),
        code == flatten(trees(p), 0),
        code.len() <= usize::MAX,
        !(run(code, 0, m, budget) is OutOfFuel),
    ensures
        run(code, 0, m, budget) == peephole::run_seq(p, m, budget),
{
    let ts = trees(p);
    peephole::lemma_run_trees(p, m, budget);
    peephole::lemma_wf_trees_ok(p);
    assert(code.subrange(0, code.len() as int) =~= code);
    if run_trees(ts, m, budget) is OutOfFuel {
        lemma_oof_seq(code, ts, 0, m, budget, budget);
    } else {
        if budget < cost_trees(ts, m, budget) {
            lemma_short_seq(code, ts, 0, m, budget, budget);
        }
        flattening_preserves_meaning(p, code, m, budget, budget);
    }
}

} // verus!
