//! The interface shared by every program form that can be run.

use vstd::prelude::*;

use crate::common::{BfResult, Error};
use crate::rts::RtsState;
use crate::state::{machine, reports, zeroed, Machine, Outcome, State, DEFAULT_CAPACITY};

verus! {

/// The machine a run starts from: a zeroed tape of `size` cells (default
/// [`DEFAULT_CAPACITY`]), pointer at cell 0, the given input, no output.
pub open spec fn start(size: Option<usize>, input: Seq<u8>) -> Machine {
    let n = match size {
        Some(n) => n,
        None => DEFAULT_CAPACITY,
    };
    Machine { tape: zeroed(n as nat), pos: 0, input, output: Seq::empty() }
}

/// A vector holding the bytes of a slice.
pub fn copy_bytes(s: &[u8]) -> (r: Vec<u8>)
    ensures
        r@ == s@,
{
    let mut r: Vec<u8> = Vec::new();
    let mut i: usize = 0;
    while i < s.len()
        invariant
            i <= s.len(),
            r@ == s@.take(i as int),
        decreases s.len() - i,
    {
        r.push(s[i]);
        i = i + 1;
        assert(r@ =~= s@.take(i as int));
    }
    assert(s@.take(s.len() as int) =~= s@);
    r
}

/// Program forms which can be interpreted.
///
/// A run is given a budget (`fuel`) so that it always ends: in the tree
/// forms it bounds how often each loop may repeat (a loop entered with
/// budget `f` repeats at most `f` times, each repetition running with one
/// unit less); in bytecode it bounds the number of instructions executed. A
/// program that does not halt within its budget is reported by `None`.
pub trait Interpretable {
    /// The program is well formed for its form.
    spec fn runnable(&self) -> bool;

    /// The outcome of running the program from `m` within budget `fuel`.
    spec fn outcome(&self, m: Machine, fuel: nat) -> Outcome;

    /// Runs the program on a tape and a pair of channels.
    fn interpret_state(&self, state: &mut State, rts: &mut RtsState, fuel: u64) -> (r: Option<
        BfResult<()>,
    >)
        requires
            self.runnable(),
            old(state).wf(),
        ensures
            final(state).wf(),
            reports(
                self.outcome(machine(*old(state), *old(rts)), fuel as nat),
                r,
                machine(*final(state), *final(rts)),
            ),
    ;

    /// Runs the program on a fresh tape of `size` cells (default 30,000) with
    /// the given input, and returns what it wrote.
    fn interpret_memory(&self, size: Option<usize>, input: &[u8], fuel: u64) -> (r: Option<
        BfResult<Vec<u8>>,
    >)
        requires
            self.runnable(),
            size matches Some(n) ==> n >= 1,
        ensures
            match self.outcome(start(size, input@), fuel as nat) {
                Outcome::Done(m) => r matches Some(Ok(out)) && out@ == m.output,
                Outcome::Fail(e, _) => r == Some(Err::<Vec<u8>, Error>(e)),
                Outcome::OutOfFuel => r is None,
            },
    {
        let mut state = match size {
            Some(n) => State::with_capacity(n),
            None => State::new(),
        };
        let mut rts = RtsState::new(copy_bytes(input), Vec::new());
        proof {
            assert(machine(state, rts) =~= start(size, input@));
        }
        match self.interpret_state(&mut state, &mut rts, fuel) {
            None => None,
            Some(Ok(())) => Some(Ok(rts.into_output())),
            Some(Err(e)) => Some(Err(e)),
        }
    }
}

} // verus!
