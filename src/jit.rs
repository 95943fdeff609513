//! The native back-end's machine-independent half: the loop balance
//! analysis, the bounds analysis built on it, and the plan of instructions
//! (with the bounds guards each needs) that an x86-64 emitter turns into code.
//!
//! The bounds analysis tracks two marks: `left`, a proven lower bound on the
//! number of cells left of the pointer, and `right`, one on the number of
//! cells right of it. A move no longer than its mark needs no guard.

use vstd::prelude::*;

use crate::common::{Count, Instruction};
use crate::peephole::{run_loop, run_seq, run_stmt, step_instr, Statement};
use crate::state::{Machine, Outcome};

verus! {

/// The net pointer movement of one iteration of a loop body.
#[derive(Clone, Copy, Debug, PartialEq, Eq, Structural)]
pub enum LoopBalance {
    /// Exactly this displacement.
    Exact(isize),
    /// May move right but not left.
    RightOnly,
    /// May move left but not right.
    LeftOnly,
    /// May move either way.
    Unknown,
}

impl LoopBalance {
    /// Exactly balanced between right and left.
    pub open spec fn spec_is_balanced(self) -> bool {
        self == LoopBalance::Exact(0)
    }

    /// Moves net right, if at all.
    pub open spec fn spec_is_right_only(self) -> bool {
        match self {
            LoopBalance::Exact(d) => d >= 0,
            LoopBalance::RightOnly => true,
            _ => false,
        }
    }

    /// Moves net left, if at all.
    pub open spec fn spec_is_left_only(self) -> bool {
        match self {
            LoopBalance::Exact(d) => d <= 0,
            LoopBalance::LeftOnly => true,
            _ => false,
        }
    }

    /// Is the loop body exactly balanced between right and left?
    #[verifier::when_used_as_spec(spec_is_balanced)]
    pub fn is_balanced(self) -> (r: bool)
        ensures
            r == self.spec_is_balanced(),
    {
        self == LoopBalance::Exact(0)
    }

    /// Does the loop move net right (if at all)?
    #[verifier::when_used_as_spec(spec_is_right_only)]
    pub fn is_right_only(self) -> (r: bool)
        ensures
            r == self.spec_is_right_only(),
    {
        match self {
            LoopBalance::Exact(d) => d >= 0,
            LoopBalance::RightOnly => true,
            _ => false,
        }
    }

    /// Does the loop move net left (if at all)?
    #[verifier::when_used_as_spec(spec_is_left_only)]
    pub fn is_left_only(self) -> (r: bool)
        ensures
            r == self.spec_is_left_only(),
    {
        match self {
            LoopBalance::Exact(d) => d <= 0,
            LoopBalance::LeftOnly => true,
            _ => false,
        }
    }
}

/// `Exact(d)` when `d` fits the displacement type, else `Unknown`.
pub open spec fn exact(d: int) -> LoopBalance {
    if isize::MIN <= d <= isize::MAX {
        LoopBalance::Exact(d as isize)
    } else {
        LoopBalance::Unknown
    }
}

/// The balance after one more statement, given the balance so far.
pub open spec fn step_balance(net: LoopBalance, st: Statement) -> LoopBalance
    decreases st,
{
    match st {
        Statement::Instr(Instruction::Right(n)) => match net {
            LoopBalance::Exact(d) => exact(d + n),
            LoopBalance::RightOnly => LoopBalance::RightOnly,
            _ => LoopBalance::Unknown,
        },
        Statement::Instr(Instruction::Left(n)) => match net {
            LoopBalance::Exact(d) => exact(d - n),
            LoopBalance::LeftOnly => LoopBalance::LeftOnly,
            _ => LoopBalance::Unknown,
        },
        Statement::Instr(Instruction::FindZeroRight(_)) => if net.spec_is_right_only() {
            LoopBalance::RightOnly
        } else {
            LoopBalance::Unknown
        },
        Statement::Instr(Instruction::FindZeroLeft(_)) => if net.spec_is_left_only() {
            LoopBalance::LeftOnly
        } else {
            LoopBalance::Unknown
        },
        Statement::Instr(_) => net,
        Statement::Loop(body) => {
            let b = balance(body@);
            if net is Exact && b.spec_is_balanced() {
                net
            } else if net.spec_is_right_only() && b.spec_is_right_only() {
                LoopBalance::RightOnly
            } else if net.spec_is_left_only() && b.spec_is_left_only() {
                LoopBalance::LeftOnly
            } else {
                LoopBalance::Unknown
            }
        },
    }
}

/// The balance of a loop body: statements folded in order from `Exact(0)`.
pub open spec fn balance(p: Seq<Statement>) -> LoopBalance
    decreases p,
{
    if p.len() == 0 {
        LoopBalance::Exact(0)
    } else {
        step_balance(balance(p.subrange(0, p.len() - 1)), p[p.len() - 1])
    }
}

/// The balances of every loop of a sequence, in program order (a loop
/// before the loops nested in it).
pub open spec fn loop_balances(p: Seq<Statement>) -> Seq<LoopBalance>
    decreases p,
{
    if p.len() == 0 {
        Seq::empty()
    } else {
        loop_balances(p.subrange(0, p.len() - 1)) + stmt_balances(p[p.len() - 1])
    }
}

/// The balances of the loops of one statement, in program order.
pub open spec fn stmt_balances(st: Statement) -> Seq<LoopBalance>
    decreases st,
{
    match st {
        Statement::Instr(_) => Seq::empty(),
        Statement::Loop(body) => seq![balance(body@)] + loop_balances(body@),
    }
}

proof fn lemma_take_push(p: Seq<Statement>, i: int)
    requires
        0 <= i < p.len(),
    ensures
        balance(p.take(i + 1)) == step_balance(balance(p.take(i)), p[i]),
        loop_balances(p.take(i + 1)) == loop_balances(p.take(i)) + stmt_balances(p[i]),
{
    assert(p.take(i + 1).subrange(0, i) =~= p.take(i));
}

/// The computed balance of every loop, indexed by the loop's position in
/// program order.
#[derive(Debug)]
pub struct LoopBalanceMap(Vec<LoopBalance>);

impl View for LoopBalanceMap {
    type V = Seq<LoopBalance>;

    closed spec fn view(&self) -> Seq<LoopBalance> {
        self.0@
    }
}

impl LoopBalanceMap {
    /// Analyzes every loop of the program.
    pub fn new(program: &Vec<Statement>) -> (r: LoopBalanceMap)
        ensures
            r@ == loop_balances(program@),
    {
        let mut lbm = LoopBalanceMap(Vec::new());
        let mut i: usize = 0;
        assert(program@.take(0) =~= Seq::<Statement>::empty());
        assert(lbm@ =~= loop_balances(program@.take(0)));
        while i < program.len()
            invariant
                i <= program.len(),
                lbm@ == loop_balances(program@.take(i as int)),
            decreases program.len() - i,
        {
            proof {
                lemma_take_push(program@, i as int);
            }
            match &program[i] {
                Statement::Instr(_) => {
                    assert(lbm@ =~= loop_balances(program@.take(i as int + 1)));
                },
                Statement::Loop(body) => {
                    let _ = lbm.analyze_loop(body);
                    assert(lbm@ =~= loop_balances(program@.take(i as int + 1)));
                },
            }
            i = i + 1;
        }
        assert(program@.take(program.len() as int) =~= program@);
        lbm
    }

    /// The balance of the loop at position `index` (`Unknown` if there is none).
    pub fn get(&self, index: usize) -> (r: LoopBalance)
        ensures
            r == (if index < self@.len() {
                self@[index as int]
            } else {
                LoopBalance::Unknown
            }),
    {
        if index < self.0.len() {
            self.0[index]
        } else {
            LoopBalance::Unknown
        }
    }

    /// Analyzes a loop body, recording its balance and then those of the
    /// loops inside it.
    fn analyze_loop(&mut self, body: &Vec<Statement>) -> (r: LoopBalance)
        ensures
            r == balance(body@),
            final(self)@ == old(self)@ + seq![r] + loop_balances(body@),
        decreases body,
    {
        let slot = self.0.len();
        self.0.push(LoopBalance::Unknown);
        let ghost base = old(self)@;
        let mut net = LoopBalance::Exact(0);
        let mut i: usize = 0;
        assert(body@.take(0) =~= Seq::<Statement>::empty());
        assert(self@ =~= base + seq![LoopBalance::Unknown] + loop_balances(body@.take(0)));
        while i < body.len()
            invariant
                i <= body.len(),
                slot == base.len(),
                net == balance(body@.take(i as int)),
                self@ == base + seq![LoopBalance::Unknown] + loop_balances(body@.take(i as int)),
            decreases body.len() - i,
        {
            proof {
                lemma_take_push(body@, i as int);
            }
            let ghost prev = self@;
            net = match &body[i] {
                Statement::Instr(Instruction::Right(n)) => match net {
                    LoopBalance::Exact(d) => exact_add(d, *n),
                    LoopBalance::RightOnly => LoopBalance::RightOnly,
                    _ => LoopBalance::Unknown,
                },
                Statement::Instr(Instruction::Left(n)) => match net {
                    LoopBalance::Exact(d) => exact_sub(d, *n),
                    LoopBalance::LeftOnly => LoopBalance::LeftOnly,
                    _ => LoopBalance::Unknown,
                },
                Statement::Instr(Instruction::FindZeroRight(_)) => if net.is_right_only() {
                    LoopBalance::RightOnly
                } else {
                    LoopBalance::Unknown
                },
                Statement::Instr(Instruction::FindZeroLeft(_)) => if net.is_left_only() {
                    LoopBalance::LeftOnly
                } else {
                    LoopBalance::Unknown
                },
                Statement::Instr(_) => net,
                Statement::Loop(inner) => {
                    let b = self.analyze_loop(inner);
                    if matches!(net, LoopBalance::Exact(_)) && b.is_balanced() {
                        net
                    } else if net.is_right_only() && b.is_right_only() {
                        LoopBalance::RightOnly
                    } else if net.is_left_only() && b.is_left_only() {
                        LoopBalance::LeftOnly
                    } else {
                        LoopBalance::Unknown
                    }
                },
            };
            assert(self@ =~= base + seq![LoopBalance::Unknown] + loop_balances(
                body@.take(i as int + 1),
            ));
            i = i + 1;
        }
        assert(body@.take(body.len() as int) =~= body@);
        self.0.set(slot, net);
        assert(self@ =~= base + seq![net] + loop_balances(body@));
        net
    }
}

/// `d + n` as a balance: `Unknown` when it does not fit.
fn exact_add(d: isize, n: usize) -> (r: LoopBalance)
    ensures
        r == exact(d + n),
{
    let s: i128 = d as i128 + n as i128;
    if isize::MIN as i128 <= s && s <= isize::MAX as i128 {
        LoopBalance::Exact(s as isize)
    } else {
        LoopBalance::Unknown
    }
}

/// `d - n` as a balance: `Unknown` when it does not fit.
fn exact_sub(d: isize, n: usize) -> (r: LoopBalance)
    ensures
        r == exact(d - n),
{
    let s: i128 = d as i128 - n as i128;
    if isize::MIN as i128 <= s && s <= isize::MAX as i128 {
        LoopBalance::Exact(s as isize)
    } else {
        LoopBalance::Unknown
    }
}

/// Abstract interpreter that tracks how far the pointer provably is from
/// each end of the tape.
#[derive(Debug)]
pub struct AbstractInterpreter {
    /// A lower bound on the number of cells left of the pointer.
    left_mark: usize,
    /// A lower bound on the number of cells right of the pointer.
    right_mark: usize,
    /// The marks to restore when leaving each open loop.
    loop_stack: Vec<(usize, usize)>,
    /// The balance of every loop, in program order.
    loop_balances: LoopBalanceMap,
    /// The position of the next loop to enter.
    next_loop: usize,
}

/// `a + b`, capped at `usize::MAX`.
pub open spec fn capped_add(a: usize, b: usize) -> usize {
    if a + b <= usize::MAX {
        (a + b) as usize
    } else {
        usize::MAX
    }
}

impl AbstractInterpreter {
    pub closed spec fn left(&self) -> usize {
        self.left_mark
    }

    pub closed spec fn right(&self) -> usize {
        self.right_mark
    }

    pub closed spec fn stack(&self) -> Seq<(usize, usize)> {
        self.loop_stack@
    }

    pub closed spec fn balances(&self) -> Seq<LoopBalance> {
        self.loop_balances@
    }

    pub closed spec fn next_loop(&self) -> usize {
        self.next_loop
    }

    /// Starts at the left end of the tape, knowing nothing of its length,
    /// with the balances of the program's loops computed.
    pub fn new(program: &Vec<Statement>) -> (r: AbstractInterpreter)
        ensures
            r.left() == 0,
            r.right() == 0,
            r.stack().len() == 0,
            r.balances() == loop_balances(program@),
            r.next_loop() == 0,
    {
        AbstractInterpreter {
            left_mark: 0,
            right_mark: 0,
            loop_stack: Vec::new(),
            loop_balances: LoopBalanceMap::new(program),
            next_loop: 0,
        }
    }

    /// Moves the pointer `count` cells left; returns whether the move is
    /// proven not to underflow.
    pub fn move_left(&mut self, count: Count) -> (r: bool)
        ensures
            r == (count <= old(self).left()),
            final(self).left() == (if r {
                (old(self).left() - count) as usize
            } else {
                0
            }),
            final(self).right() == capped_add(old(self).right(), count),
            final(self).stack() == old(self).stack(),
            final(self).balances() == old(self).balances(),
            final(self).next_loop() == old(self).next_loop(),
    {
        self.right_mark = self.right_mark.saturating_add(count);
        if count <= self.left_mark {
            self.left_mark = self.left_mark - count;
            true
        } else {
            self.left_mark = 0;
            false
        }
    }

    /// Moves the pointer `count` cells right; returns whether the move is
    /// proven not to overflow.
    pub fn move_right(&mut self, count: Count) -> (r: bool)
        ensures
            r == (count <= old(self).right()),
            final(self).right() == (if r {
                (old(self).right() - count) as usize
            } else {
                0
            }),
            final(self).left() == capped_add(old(self).left(), count),
            final(self).stack() == old(self).stack(),
            final(self).balances() == old(self).balances(),
            final(self).next_loop() == old(self).next_loop(),
    {
        self.left_mark = self.left_mark.saturating_add(count);
        if count <= self.right_mark {
            self.right_mark = self.right_mark - count;
            true
        } else {
            self.right_mark = 0;
            false
        }
    }

    /// Whether a move of `count` cells left is proven safe.
    pub fn check_left(&self, count: Count) -> (r: bool)
        ensures
            r == (count <= self.left()),
    {
        count <= self.left_mark
    }

    /// Whether a move of `count` cells right is proven safe.
    pub fn check_right(&self, count: Count) -> (r: bool)
        ensures
            r == (count <= self.right()),
    {
        count <= self.right_mark
    }

    /// Forgets the left mark, after a move of unknown length to the left.
    pub fn reset_left(&mut self)
        ensures
            final(self).left() == 0,
            final(self).right() == old(self).right(),
            final(self).stack() == old(self).stack(),
            final(self).balances() == old(self).balances(),
            final(self).next_loop() == old(self).next_loop(),
    {
        self.left_mark = 0;
    }

    /// Forgets the right mark, after a move of unknown length to the right.
    pub fn reset_right(&mut self)
        ensures
            final(self).right() == 0,
            final(self).left() == old(self).left(),
            final(self).stack() == old(self).stack(),
            final(self).balances() == old(self).balances(),
            final(self).next_loop() == old(self).next_loop(),
    {
        self.right_mark = 0;
    }

    /// Enters the next loop: keeps only the marks that its balance preserves
    /// over any number of iterations, and saves them for the loop's exit.
    pub fn enter_loop(&mut self)
        ensures
            ({
                let b = if old(self).next_loop() < old(self).balances().len() {
                    old(self).balances()[old(self).next_loop() as int]
                } else {
                    LoopBalance::Unknown
                };
                &&& final(self).left() == (if b.spec_is_right_only() {
                    old(self).left()
                } else {
                    0
                })
                &&& final(self).right() == (if b.spec_is_left_only() {
                    old(self).right()
                } else {
                    0
                })
            }),
            final(self).stack() == old(self).stack().push((final(self).left(), final(self).right())),
            final(self).balances() == old(self).balances(),
            final(self).next_loop() == capped_add(old(self).next_loop(), 1),
    {
        let balance = self.loop_balances.get(self.next_loop);
        if balance.is_balanced() {
        } else if balance.is_right_only() {
            self.reset_right();
        } else if balance.is_left_only() {
            self.reset_left();
        } else {
            self.reset_left();
            self.reset_right();
        }
        self.loop_stack.push((self.left_mark, self.right_mark));
        self.next_loop = self.next_loop.saturating_add(1);
    }

    /// Leaves the innermost loop, restoring the marks saved on entry.
    pub fn leave_loop(&mut self)
        requires
            old(self).stack().len() > 0,
        ensures
            final(self).left() == old(self).stack().last().0,
            final(self).right() == old(self).stack().last().1,
            final(self).stack() == old(self).stack().drop_last(),
            final(self).balances() == old(self).balances(),
            final(self).next_loop() == old(self).next_loop(),
    {
        match self.loop_stack.pop() {
            Some((l, r)) => {
                self.left_mark = l;
                self.right_mark = r;
            },
            None => {},
        }
    }
}

/// What a balance says of a run that moves the pointer from `a` to `b`.
pub open spec fn displaced(balance: LoopBalance, a: int, b: int) -> bool {
    match balance {
        LoopBalance::Exact(d) => b == a + d,
        LoopBalance::RightOnly => b >= a,
        LoopBalance::LeftOnly => b <= a,
        LoopBalance::Unknown => true,
    }
}

proof fn lemma_run_append(a: Seq<Statement>, b: Seq<Statement>, m: Machine, fuel: nat)
    ensures
        run_seq(a + b, m, fuel) == match run_seq(a, m, fuel) {
            Outcome::Done(next) => run_seq(b, next, fuel),
            other => other,
        },
    decreases a.len(),
{
    if a.len() == 0 {
        assert(a + b =~= b);
    } else {
        let ab = a + b;
        assert(ab[0] == a[0]);
        assert(ab.subrange(1, ab.len() as int) =~= a.subrange(1, a.len() as int) + b);
        if let Outcome::Done(next) = run_stmt(a[0], m, fuel) {
            lemma_run_append(a.subrange(1, a.len() as int), b, next, fuel);
        }
    }
}

proof fn lemma_run_split(p: Seq<Statement>, m: Machine, fuel: nat)
    requires
        p.len() > 0,
    ensures
        run_seq(p, m, fuel) == match run_seq(p.subrange(0, p.len() - 1), m, fuel) {
            Outcome::Done(next) => run_stmt(p[p.len() - 1], next, fuel),
            other => other,
        },
{
    let front = p.subrange(0, p.len() - 1);
    let last = p[p.len() - 1];
    assert(p =~= front + seq![last]);
    lemma_run_append(front, seq![last], m, fuel);
    if let Outcome::Done(next) = run_seq(front, m, fuel) {
        assert(seq![last].subrange(1, 1) =~= Seq::<Statement>::empty());
        if let Outcome::Done(y) = run_stmt(last, next, fuel) {
            assert(run_seq(Seq::<Statement>::empty(), y, fuel) == Outcome::Done(y));
        }
    }
}

proof fn lemma_find_zero_right_moves_right(m: Machine, n: int)
    ensures
        m.find_zero_right(n) matches Outcome::Done(x) ==> x.pos >= m.pos && x.tape == m.tape && (
        m.wf() ==> x.wf()),
    decreases m.tape.len() - m.pos,
{
    if m.wf() && n >= 1 && m.cell() != 0 {
        if let Outcome::Done(next) = m.move_right(n) {
            lemma_find_zero_right_moves_right(next, n);
        }
    }
}

proof fn lemma_find_zero_left_moves_left(m: Machine, n: int)
    ensures
        m.find_zero_left(n) matches Outcome::Done(x) ==> x.pos <= m.pos && x.tape == m.tape && (
        m.wf() ==> x.wf()),
    decreases m.pos,
{
    if m.wf() && n >= 1 && m.cell() != 0 {
        if let Outcome::Done(next) = m.move_left(n) {
            lemma_find_zero_left_moves_left(next, n);
        }
    }
}

/// The balance of a loop body bounds how far any halting run of it moves
/// the pointer: by exactly `d` for `Exact(d)`, not to the left for
/// `RightOnly`, not to the right for `LeftOnly`.
pub proof fn balance_bounds_displacement(body: Seq<Statement>, m: Machine, fuel: nat)
    ensures
        run_seq(body, m, fuel) matches Outcome::Done(x) ==> displaced(balance(body), m.pos, x.pos),
    decreases fuel, body,
{
    if body.len() == 0 {
        assert(balance(body) == LoopBalance::Exact(0));
    } else {
        let front = body.subrange(0, body.len() - 1);
        let last = body[body.len() - 1];
        assert(balance(body) == step_balance(balance(front), last));
        lemma_run_split(body, m, fuel);
        balance_bounds_displacement(front, m, fuel);
        if let Outcome::Done(x) = run_seq(front, m, fuel) {
            match last {
                Statement::Instr(Instruction::FindZeroRight(n)) => {
                    lemma_find_zero_right_moves_right(x, n as int);
                },
                Statement::Instr(Instruction::FindZeroLeft(n)) => {
                    lemma_find_zero_left_moves_left(x, n as int);
                },
                Statement::Loop(inner) => {
                    lemma_loop_displacement(inner@, x, fuel);
                    assert(run_stmt(last, x, fuel) == run_loop(inner@, x, fuel));
                },
                Statement::Instr(Instruction::Right(n)) => {
                    assert(run_seq(body, m, fuel) == x.move_right(n as int));
                },
                Statement::Instr(Instruction::Left(n)) => {
                    assert(run_seq(body, m, fuel) == x.move_left(n as int));
                },
                _ => {},
            }
        }
    }
}

proof fn lemma_loop_displacement(body: Seq<Statement>, m: Machine, fuel: nat)
    ensures
        run_loop(body, m, fuel) matches Outcome::Done(y) ==> {
            let b = balance(body);
            &&& b.spec_is_balanced() ==> y.pos == m.pos
            &&& b.spec_is_right_only() ==> y.pos >= m.pos
            &&& b.spec_is_left_only() ==> y.pos <= m.pos
        },
    decreases fuel, body,
{
    if m.cell() != 0 && fuel > 0 {
        let f = (fuel - 1) as nat;
        balance_bounds_displacement(body, m, f);
        if let Outcome::Done(next) = run_seq(body, m, f) {
            lemma_loop_displacement(body, next, f);
        }
    }
}

/// One step of the plan that a native emitter follows.
#[derive(Debug, PartialEq, Eq)]
pub enum Node {
    /// An instruction, and whether its pointer move needs a run-time guard.
    Instr(Instruction, bool),
    /// A loop around a sequence of steps.
    Loop(Vec<Node>),
}

/// The marks of the bounds analysis at one point of the walk, with the
/// position of the next loop to enter.
pub struct Marks {
    pub left: usize,
    pub right: usize,
    pub next: usize,
}

impl AbstractInterpreter {
    /// The analysis' marks.
    pub open spec fn marks(&self) -> Marks {
        Marks { left: self.left(), right: self.right(), next: self.next_loop() }
    }
}

/// A move of `n` to the right: proven when `n` is within the right mark.
pub open spec fn moved_right(k: Marks, n: usize) -> Marks {
    Marks {
        left: capped_add(k.left, n),
        right: if n <= k.right {
            (k.right - n) as usize
        } else {
            0
        },
        next: k.next,
    }
}

/// A move of `n` to the left: proven when `n` is within the left mark.
pub open spec fn moved_left(k: Marks, n: usize) -> Marks {
    Marks {
        left: if n <= k.left {
            (k.left - n) as usize
        } else {
            0
        },
        right: capped_add(k.right, n),
        next: k.next,
    }
}

/// The marks after an instruction. A transfer leaves the pointer where it
/// was, and its move may not run at all (when the cell is 0), so it leaves
/// the marks as they were.
pub open spec fn after_instr(i: Instruction, k: Marks) -> Marks {
    match i {
        Instruction::Right(n) => moved_right(k, n),
        Instruction::Left(n) => moved_left(k, n),
        Instruction::FindZeroRight(_) => Marks { left: k.left, right: 0, next: k.next },
        Instruction::FindZeroLeft(_) => Marks { left: 0, right: k.right, next: k.next },
        _ => k,
    }
}

/// Whether an instruction gets a guard: in checked mode, a move beyond its
/// mark, and every scan.
pub open spec fn guard_of(i: Instruction, k: Marks, checked: bool) -> bool {
    checked && match i {
        Instruction::Right(n) => n > k.right,
        Instruction::Left(n) => n > k.left,
        Instruction::OffsetAddRight(n) => n > k.right,
        Instruction::OffsetAddLeft(n) => n > k.left,
        Instruction::FindZeroRight(_) => true,
        Instruction::FindZeroLeft(_) => true,
        _ => false,
    }
}

/// The balance of loop number `i`, `Unknown` past the end.
pub open spec fn balance_at(balances: Seq<LoopBalance>, i: usize) -> LoopBalance {
    if i < balances.len() {
        balances[i as int]
    } else {
        LoopBalance::Unknown
    }
}

/// The marks on entering the next loop: only those its balance preserves
/// over any number of iterations are kept.
pub open spec fn entered(k: Marks, balances: Seq<LoopBalance>) -> Marks {
    let b = balance_at(balances, k.next);
    Marks {
        left: if b.spec_is_right_only() {
            k.left
        } else {
            0
        },
        right: if b.spec_is_left_only() {
            k.right
        } else {
            0
        },
        next: capped_add(k.next, 1),
    }
}

/// The marks after a statement; after a loop, those it was entered with.
pub open spec fn after_stmt(st: Statement, k: Marks, balances: Seq<LoopBalance>) -> Marks
    decreases st,
{
    match st {
        Statement::Instr(i) => after_instr(i, k),
        Statement::Loop(body) => {
            let e = entered(k, balances);
            Marks { left: e.left, right: e.right, next: after(body@, e, balances).next }
        },
    }
}

/// The marks after a sequence of statements.
pub open spec fn after(p: Seq<Statement>, k: Marks, balances: Seq<LoopBalance>) -> Marks
    decreases p,
{
    if p.len() == 0 {
        k
    } else {
        after_stmt(p[p.len() - 1], after(p.subrange(0, p.len() - 1), k, balances), balances)
    }
}

/// `n` is the plan for statement `st` walked from marks `k`.
pub open spec fn planned_stmt(
    n: Node,
    st: Statement,
    k: Marks,
    balances: Seq<LoopBalance>,
    checked: bool,
) -> bool
    decreases st,
{
    match st {
        Statement::Instr(i) => n == Node::Instr(i, guard_of(i, k, checked)),
        Statement::Loop(body) => match n {
            Node::Loop(steps) => planned(steps@, body@, entered(k, balances), balances, checked),
            _ => false,
        },
    }
}

/// `out` is the plan for `p` walked from marks `k`: each statement's step is
/// planned from the marks after the statements before it.
pub open spec fn planned(
    out: Seq<Node>,
    p: Seq<Statement>,
    k: Marks,
    balances: Seq<LoopBalance>,
    checked: bool,
) -> bool
    decreases p,
{
    &&& out.len() == p.len()
    &&& p.len() > 0 ==> {
        let front = p.subrange(0, p.len() - 1);
        &&& planned(out.subrange(0, out.len() - 1), front, k, balances, checked)
        &&& planned_stmt(out[out.len() - 1], p[p.len() - 1], after(front, k, balances), balances, checked)
    }
}

/// The marks hold of a machine: at least `left` cells left of the pointer
/// and at least `right` right of it.
pub open spec fn holds(k: Marks, m: Machine) -> bool {
    k.left <= m.pos && k.right <= m.tape.len() - 1 - m.pos
}

/// A move within its mark stays on the tape; and after any move that stays
/// on the tape (proven, or checked at run time), the updated marks hold.
pub proof fn marks_bound_moves(k: Marks, m: Machine, n: usize)
    requires
        m.wf(),
        holds(k, m),
    ensures
        n <= k.right ==> m.move_right(n as int) is Done,
        n <= k.left ==> m.move_left(n as int) is Done,
        m.move_right(n as int) matches Outcome::Done(r) ==> holds(moved_right(k, n), r),
        m.move_left(n as int) matches Outcome::Done(l) ==> holds(moved_left(k, n), l),
{
}

proof fn lemma_plan_push(out: Seq<Node>, p: Seq<Statement>, n: Node, st: Statement, k: Marks, balances: Seq<LoopBalance>, checked: bool)
    requires
        planned(out, p, k, balances, checked),
        planned_stmt(n, st, after(p, k, balances), balances, checked),
    ensures
        planned(out.push(n), p.push(st), k, balances, checked),
        after(p.push(st), k, balances) == after_stmt(st, after(p, k, balances), balances),
{
    assert(out.push(n).subrange(0, out.len() as int) =~= out);
    assert(p.push(st).subrange(0, p.len() as int) =~= p);
}

/// The planner: the bounds analysis, run alongside the walk over the tree.
struct Compiler {
    interpreter: AbstractInterpreter,
    checked: bool,
}

impl Compiler {
    /// The step for one instruction, moving the analysis past it.
    fn instruction(&mut self, ins: Instruction) -> (r: Node)
        ensures
            r == Node::Instr(ins, guard_of(ins, old(self).interpreter.marks(), old(self).checked)),
            final(self).interpreter.marks() == after_instr(ins, old(self).interpreter.marks()),
            final(self).checked == old(self).checked,
            final(self).interpreter.stack() == old(self).interpreter.stack(),
            final(self).interpreter.balances() == old(self).interpreter.balances(),
    {
        let guard = match ins {
            Instruction::Right(n) => {
                let proved = self.interpreter.move_right(n);
                self.checked && !proved
            },
            Instruction::Left(n) => {
                let proved = self.interpreter.move_left(n);
                self.checked && !proved
            },
            Instruction::FindZeroRight(_) => {
                self.interpreter.reset_right();
                self.checked
            },
            Instruction::FindZeroLeft(_) => {
                self.interpreter.reset_left();
                self.checked
            },
            Instruction::OffsetAddRight(n) => self.checked && !self.interpreter.check_right(n),
            Instruction::OffsetAddLeft(n) => self.checked && !self.interpreter.check_left(n),
            _ => false,
        };
        Node::Instr(ins, guard)
    }

    /// The steps for a sequence of statements.
    fn block(&mut self, program: &Vec<Statement>) -> (r: Vec<Node>)
        ensures
            planned(
                r@,
                program@,
                old(self).interpreter.marks(),
                old(self).interpreter.balances(),
                old(self).checked,
            ),
            final(self).interpreter.marks() == after(
                program@,
                old(self).interpreter.marks(),
                old(self).interpreter.balances(),
            ),
            final(self).checked == old(self).checked,
            final(self).interpreter.stack() == old(self).interpreter.stack(),
            final(self).interpreter.balances() == old(self).interpreter.balances(),
        decreases program,
    {
        let ghost k0 = self.interpreter.marks();
        let ghost bal = self.interpreter.balances();
        let mut out: Vec<Node> = Vec::new();
        let mut i: usize = 0;
        assert(program@.take(0) =~= Seq::<Statement>::empty());
        while i < program.len()
            invariant
                i <= program.len(),
                k0 == old(self).interpreter.marks(),
                bal == old(self).interpreter.balances(),
                planned(out@, program@.take(i as int), k0, bal, self.checked),
                self.interpreter.marks() == after(program@.take(i as int), k0, bal),
                self.checked == old(self).checked,
                self.interpreter.stack() == old(self).interpreter.stack(),
                self.interpreter.balances() == bal,
            decreases program.len() - i,
        {
            proof {
                assert(program@.take(i as int + 1) =~= program@.take(i as int).push(program@[i as int]));
            }
            let node = match &program[i] {
                Statement::Instr(ins) => self.instruction(*ins),
                Statement::Loop(body) => {
                    self.interpreter.enter_loop();
                    let steps = self.block(body);
                    self.interpreter.leave_loop();
                    Node::Loop(steps)
                },
            };
            proof {
                lemma_plan_push(out@, program@.take(i as int), node, program@[i as int], k0, bal, self.checked);
            }
            out.push(node);
            i = i + 1;
        }
        assert(program@.take(program.len() as int) =~= program@);
        out
    }
}

/// Plans native code for a peephole tree: the same instructions, each
/// marked with whether it needs a run-time bounds guard. The walk starts
/// at the left end of the tape, knowing nothing of its length; in checked
/// mode a move gets a guard unless the marks prove it safe, and a scan
/// always does; in unchecked mode nothing is guarded.
pub fn plan(program: &Vec<Statement>, checked: bool) -> (r: Vec<Node>)
    ensures
        planned(r@, program@, Marks { left: 0, right: 0, next: 0 }, loop_balances(program@), checked),
{
    let mut compiler = Compiler { interpreter: AbstractInterpreter::new(program), checked };
    compiler.block(program)
}

/// `b` is `a` with every guard removed: the same instructions and loops.
pub open spec fn unguarded_copy(a: Seq<Node>, b: Seq<Node>) -> bool
    decreases a,
{
    &&& a.len() == b.len()
    &&& a.len() > 0 ==> {
        &&& unguarded_copy(a.subrange(0, a.len() - 1), b.subrange(0, b.len() - 1))
        &&& unguarded_node(a[a.len() - 1], b[b.len() - 1])
    }
}

/// `y` is `x` with every guard removed.
pub open spec fn unguarded_node(x: Node, y: Node) -> bool
    decreases x,
{
    match (x, y) {
        (Node::Instr(i, _), Node::Instr(j, guard)) => i == j && !guard,
        (Node::Loop(xs), Node::Loop(ys)) => unguarded_copy(xs@, ys@),
        _ => false,
    }
}

/// The unchecked plan of a program is its checked plan with the guards
/// removed: the two carry out the same instructions and loops, and differ
/// only in the bounds tests.
pub proof fn unchecked_plan_drops_only_guards(
    a: Seq<Node>,
    b: Seq<Node>,
    p: Seq<Statement>,
    k: Marks,
    balances: Seq<LoopBalance>,
)
    requires
        planned(a, p, k, balances, true),
        planned(b, p, k, balances, false),
    ensures
        unguarded_copy(a, b),
    decreases p,
{
    if p.len() > 0 {
        let n = p.len() as int;
        let front = p.subrange(0, n - 1);
        unchecked_plan_drops_only_guards(
            a.subrange(0, n - 1),
            b.subrange(0, n - 1),
            front,
            k,
            balances,
        );
        let kk = after(front, k, balances);
        assert(a.len() == n && b.len() == n);
        assert(planned_stmt(a[n - 1], p[n - 1], kk, balances, true));
        assert(planned_stmt(b[n - 1], p[n - 1], kk, balances, false));
        match p[n - 1] {
            Statement::Instr(i) => {
                assert(b[n - 1] == Node::Instr(i, false));
            },
            Statement::Loop(body) => {
                if let (Node::Loop(xs), Node::Loop(ys)) = (a[n - 1], b[n - 1]) {
                    unchecked_plan_drops_only_guards(
                        xs@,
                        ys@,
                        body@,
                        entered(kk, balances),
                        balances,
                    );
                }
            },
        }
        assert(unguarded_node(a[n - 1], b[n - 1]));
    } else {
        assert(a.len() == 0 && b.len() == 0);
    }
}

/// The moves that marks `k` prove safe stay on the tape when run from `m`.
pub open spec fn proven_safe(i: Instruction, k: Marks, m: Machine) -> bool {
    match i {
        Instruction::Right(n) => n <= k.right ==> m.pos + n < m.tape.len(),
        Instruction::Left(n) => n <= k.left ==> n <= m.pos,
        Instruction::OffsetAddRight(n) => n <= k.right ==> m.pos + n < m.tape.len(),
        Instruction::OffsetAddLeft(n) => n <= k.left ==> n <= m.pos,
        _ => true,
    }
}

/// In a run of `p` from `m`, every move that the walk from marks `k`
/// proves safe (and so leaves unguarded in a checked plan) stays on the tape.
pub open spec fn proven_moves_safe(
    p: Seq<Statement>,
    k: Marks,
    balances: Seq<LoopBalance>,
    m: Machine,
    fuel: nat,
) -> bool
    decreases fuel, p,
{
    p.len() > 0 ==> {
        let front = p.subrange(0, p.len() - 1);
        &&& proven_moves_safe(front, k, balances, m, fuel)
        &&& (run_seq(front, m, fuel) matches Outcome::Done(x) ==> proven_moves_safe_stmt(
            p[p.len() - 1],
            after(front, k, balances),
            balances,
            x,
            fuel,
        ))
    }
}

/// [`proven_moves_safe`] for one statement.
pub open spec fn proven_moves_safe_stmt(
    st: Statement,
    k: Marks,
    balances: Seq<LoopBalance>,
    m: Machine,
    fuel: nat,
) -> bool
    decreases fuel, st,
{
    match st {
        Statement::Instr(i) => proven_safe(i, k, m),
        Statement::Loop(body) => proven_moves_safe_loop(body@, entered(k, balances), balances, m, fuel),
    }
}

/// [`proven_moves_safe`] for every iteration of a loop entered with marks `e`.
pub open spec fn proven_moves_safe_loop(
    body: Seq<Statement>,
    e: Marks,
    balances: Seq<LoopBalance>,
    m: Machine,
    fuel: nat,
) -> bool
    decreases fuel, body,
{
    m.cell() != 0 && fuel > 0 ==> {
        let f = (fuel - 1) as nat;
        &&& proven_moves_safe(body, e, balances, m, f)
        &&& (run_seq(body, m, f) matches Outcome::Done(x) ==> proven_moves_safe_loop(
            body,
            e,
            balances,
            x,
            f,
        ))
    }
}

/// The balances from position `next` on are those of the loops of `p`.
pub open spec fn balances_fit(p: Seq<Statement>, next: usize, balances: Seq<LoopBalance>) -> bool {
    &&& balances.len() < usize::MAX
    &&& next + loop_balances(p).len() <= balances.len()
    &&& balances.subrange(next as int, next + loop_balances(p).len()) == loop_balances(p)
}

proof fn lemma_fit_split(p: Seq<Statement>, next: usize, balances: Seq<LoopBalance>)
    requires
        p.len() > 0,
        balances_fit(p, next, balances),
    ensures
        balances_fit(p.subrange(0, p.len() - 1), next, balances),
        ({
            let at = next + loop_balances(p.subrange(0, p.len() - 1)).len();
            let sb = stmt_balances(p[p.len() - 1]);
            &&& at + sb.len() <= balances.len()
            &&& balances.subrange(at, at + sb.len()) == sb
        }),
{
    let front = p.subrange(0, p.len() - 1);
    let lf = loop_balances(front);
    let sb = stmt_balances(p[p.len() - 1]);
    let whole = loop_balances(p);
    assert(whole == lf + sb);
    let sub = balances.subrange(next as int, next + whole.len());
    assert(whole.subrange(0, lf.len() as int) =~= lf);
    assert(whole.subrange(lf.len() as int, whole.len() as int) =~= sb);
    assert(balances.subrange(next as int, next + lf.len()) =~= sub.subrange(0, lf.len() as int));
    assert(balances.subrange(next + lf.len(), next + whole.len()) =~= sub.subrange(
        lf.len() as int,
        whole.len() as int,
    ));
}

proof fn lemma_fit_loop(body: Seq<Statement>, at: int, balances: Seq<LoopBalance>)
    requires
        0 <= at,
        balances.len() < usize::MAX,
        at + 1 + loop_balances(body).len() <= balances.len(),
        balances.subrange(at, at + 1 + loop_balances(body).len()) == seq![balance(body)]
            + loop_balances(body),
    ensures
        balances[at] == balance(body),
        balances_fit(body, (at + 1) as usize, balances),
{
    let sb = seq![balance(body)] + loop_balances(body);
    let sub = balances.subrange(at, at + sb.len());
    assert(sub[0] == balances[at]);
    assert(sb.subrange(1, sb.len() as int) =~= loop_balances(body));
    assert(balances.subrange(at + 1, at + sb.len()) =~= sub.subrange(1, sb.len() as int));
}

proof fn lemma_after_next(p: Seq<Statement>, k: Marks, balances: Seq<LoopBalance>)
    requires
        balances_fit(p, k.next, balances),
    ensures
        after(p, k, balances).next == k.next + loop_balances(p).len(),
    decreases p,
{
    if p.len() > 0 {
        let front = p.subrange(0, p.len() - 1);
        lemma_fit_split(p, k.next, balances);
        lemma_after_next(front, k, balances);
        let kk = after(front, k, balances);
        assert(after(p, k, balances) == after_stmt(p[p.len() - 1], kk, balances));
        assert(loop_balances(p) == loop_balances(front) + stmt_balances(p[p.len() - 1]));
        if let Statement::Loop(body) = p[p.len() - 1] {
            lemma_fit_loop(body@, kk.next as int, balances);
            let e = entered(kk, balances);
            assert(e.next == kk.next + 1);
            lemma_after_next(body@, e, balances);
            assert(stmt_balances(p[p.len() - 1]).len() == 1 + loop_balances(body@).len());
        }
    }
}

proof fn lemma_instr_sound(i: Instruction, k: Marks, m: Machine)
    requires
        m.wf(),
        holds(k, m),
    ensures
        proven_safe(i, k, m),
        step_instr(i, m) matches Outcome::Done(y) ==> holds(after_instr(i, k), y) && y.wf()
            && y.tape.len() == m.tape.len(),
{
    match i {
        Instruction::Right(n) => marks_bound_moves(k, m, n),
        Instruction::Left(n) => marks_bound_moves(k, m, n),
        Instruction::FindZeroRight(n) => lemma_find_zero_right_moves_right(m, n as int),
        Instruction::FindZeroLeft(n) => lemma_find_zero_left_moves_left(m, n as int),
        _ => {},
    }
}

proof fn lemma_walk_sound(
    p: Seq<Statement>,
    k: Marks,
    balances: Seq<LoopBalance>,
    m: Machine,
    fuel: nat,
)
    requires
        m.wf(),
        holds(k, m),
        balances_fit(p, k.next, balances),
    ensures
        proven_moves_safe(p, k, balances, m, fuel),
        run_seq(p, m, fuel) matches Outcome::Done(x) ==> holds(after(p, k, balances), x) && x.wf()
            && x.tape.len() == m.tape.len(),
    decreases fuel, p,
{
    if p.len() > 0 {
        let front = p.subrange(0, p.len() - 1);
        let last = p[p.len() - 1];
        lemma_run_split(p, m, fuel);
        lemma_fit_split(p, k.next, balances);
        lemma_walk_sound(front, k, balances, m, fuel);
        if let Outcome::Done(x) = run_seq(front, m, fuel) {
            let kk = after(front, k, balances);
            lemma_after_next(front, k, balances);
            assert(after(p, k, balances) == after_stmt(last, kk, balances));
            match last {
                Statement::Instr(i) => lemma_instr_sound(i, kk, x),
                Statement::Loop(body) => {
                    lemma_fit_loop(body@, kk.next as int, balances);
                    let e = entered(kk, balances);
                    lemma_loop_sound(body@, e, balances, x, fuel);
                    assert(proven_moves_safe_stmt(last, kk, balances, x, fuel));
                },
            }
            assert(proven_moves_safe_stmt(last, kk, balances, x, fuel));
        }
        assert(proven_moves_safe(p, k, balances, m, fuel));
    }
}

proof fn lemma_loop_sound(
    body: Seq<Statement>,
    e: Marks,
    balances: Seq<LoopBalance>,
    m: Machine,
    fuel: nat,
)
    requires
        m.wf(),
        holds(e, m),
        balances_fit(body, e.next, balances),
        e.left > 0 ==> balance(body).spec_is_right_only(),
        e.right > 0 ==> balance(body).spec_is_left_only(),
    ensures
        proven_moves_safe_loop(body, e, balances, m, fuel),
        run_loop(body, m, fuel) matches Outcome::Done(y) ==> holds(e, y) && y.wf() && y.tape.len()
            == m.tape.len(),
    decreases fuel, body,
{
    if m.cell() != 0 && fuel > 0 {
        let f = (fuel - 1) as nat;
        lemma_walk_sound(body, e, balances, m, f);
        balance_bounds_displacement(body, m, f);
        if let Outcome::Done(x) = run_seq(body, m, f) {
            lemma_loop_sound(body, e, balances, x, f);
        }
    }
}

/// The bounds analysis is sound: in any run of a peephole program from a
/// well-formed machine, every move that the walk from the starting marks
/// proves safe, and that a checked plan therefore leaves without a guard,
/// stays on the tape.
pub proof fn unguarded_moves_stay_on_tape(p: Seq<Statement>, m: Machine, fuel: nat)
    requires
        m.wf(),
        loop_balances(p).len() < usize::MAX,
    ensures
        proven_moves_safe(p, Marks { left: 0, right: 0, next: 0 }, loop_balances(p), m, fuel),
{
    let lb = loop_balances(p);
    assert(lb.subrange(0, lb.len() as int) =~= lb);
    lemma_walk_sound(p, Marks { left: 0, right: 0, next: 0 }, lb, m, fuel);
}

} // verus!
