//! The tape, and the abstract machine that the semantics of every program
//! form is stated over.

use vstd::prelude::*;

use crate::common::{BfResult, Error};
use crate::rts::RtsState;

verus! {

/// The number of cells of a tape made by [`State::new`].
pub const DEFAULT_CAPACITY: usize = 30000;

/// `a + b` modulo 256.
pub open spec fn wrapping_add(a: u8, b: u8) -> u8 {
    ((a as int + b as int) % 256) as u8
}

/// `a - b` modulo 256.
pub open spec fn wrapping_sub(a: u8, b: u8) -> u8 {
    ((a as int - b as int) % 256) as u8
}

/// A zeroed tape of `n` cells.
pub open spec fn zeroed(n: nat) -> Seq<u8> {
    Seq::new(n, |i: int| 0u8)
}

/// The state a program acts on: tape, pointer, pending input and output so far.
pub struct Machine {
    pub tape: Seq<u8>,
    pub pos: int,
    pub input: Seq<u8>,
    pub output: Seq<u8>,
}

/// How a run ends: normally, with an error (and the machine at that point), or
/// by running out of the step budget it was given.
pub enum Outcome {
    /// Halted normally.
    Done(Machine),
    /// Stopped by a run-time error.
    Fail(Error, Machine),
    /// Did not halt within the budget.
    OutOfFuel,
}

impl Machine {
    /// The pointer addresses a cell.
    pub open spec fn wf(self) -> bool {
        0 <= self.pos < self.tape.len()
    }

    /// The current cell.
    pub open spec fn cell(self) -> u8 {
        self.tape[self.pos]
    }

    /// The pointer placed at `pos`.
    pub open spec fn with_pos(self, pos: int) -> Machine {
        Machine { tape: self.tape, pos, input: self.input, output: self.output }
    }

    /// The current cell replaced by `v`.
    pub open spec fn set(self, v: u8) -> Machine {
        Machine {
            tape: self.tape.update(self.pos, v),
            pos: self.pos,
            input: self.input,
            output: self.output,
        }
    }

    /// `k` added to the current cell.
    pub open spec fn add(self, k: u8) -> Machine {
        self.set(wrapping_add(self.cell(), k))
    }

    /// `k` subtracted from the current cell.
    pub open spec fn sub(self, k: u8) -> Machine {
        self.set(wrapping_sub(self.cell(), k))
    }

    /// One byte of input stored in the current cell (0 at the end of input).
    pub open spec fn read(self) -> Machine {
        if self.input.len() > 0 {
            Machine {
                tape: self.tape.update(self.pos, self.input[0]),
                pos: self.pos,
                input: self.input.drop_first(),
                output: self.output,
            }
        } else {
            self.set(0)
        }
    }

    /// `n` bytes of input read into the current cell, one after another.
    pub open spec fn read_times(self, n: nat) -> Machine
        decreases n,
    {
        if n == 0 {
            self
        } else {
            self.read_times((n - 1) as nat).read()
        }
    }

    /// The current cell written `n` times.
    pub open spec fn write_times(self, n: nat) -> Machine
        decreases n,
    {
        if n == 0 {
            self
        } else {
            self.write_times((n - 1) as nat).write()
        }
    }

    /// The current cell appended to the output.
    pub open spec fn write(self) -> Machine {
        Machine {
            tape: self.tape,
            pos: self.pos,
            input: self.input,
            output: self.output.push(self.cell()),
        }
    }

    /// The pointer moved `n` cells left.
    pub open spec fn move_left(self, n: int) -> Outcome {
        if n <= self.pos {
            Outcome::Done(self.with_pos(self.pos - n))
        } else {
            Outcome::Fail(Error::PointerUnderflow, self)
        }
    }

    /// The pointer moved `n` cells right.
    pub open spec fn move_right(self, n: int) -> Outcome {
        if self.pos + n < self.tape.len() {
            Outcome::Done(self.with_pos(self.pos + n))
        } else {
            Outcome::Fail(Error::PointerOverflow, self)
        }
    }

    /// A nonzero current cell added to the cell `n` to the right and zeroed.
    /// When that cell is off the tape, the transfer fails as the loop
    /// `[->…>+<…<]` does: with the current cell decremented once.
    pub open spec fn offset_add_right(self, n: int) -> Outcome {
        let v = self.cell();
        let cleared = self.set(0);
        if v == 0 {
            Outcome::Done(self)
        } else if self.pos + n < self.tape.len() {
            Outcome::Done(
                Machine {
                    tape: cleared.tape.update(self.pos + n, wrapping_add(self.tape[self.pos + n], v)),
                    ..cleared
                },
            )
        } else {
            Outcome::Fail(Error::PointerOverflow, self.add(255))
        }
    }

    /// A nonzero current cell added to the cell `n` to the left and zeroed.
    /// When that cell is off the tape, the transfer fails as the loop
    /// `[-<…<+>…>]` does: with the current cell decremented once.
    pub open spec fn offset_add_left(self, n: int) -> Outcome {
        let v = self.cell();
        let cleared = self.set(0);
        if v == 0 {
            Outcome::Done(self)
        } else if n <= self.pos {
            Outcome::Done(
                Machine {
                    tape: cleared.tape.update(self.pos - n, wrapping_add(self.tape[self.pos - n], v)),
                    ..cleared
                },
            )
        } else {
            Outcome::Fail(Error::PointerUnderflow, self.add(255))
        }
    }

    /// Moves right by `n` until the current cell is 0.
    pub open spec fn find_zero_right(self, n: int) -> Outcome
        decreases self.tape.len() - self.pos,
    {
        if !self.wf() || n < 1 || self.cell() == 0 {
            Outcome::Done(self)
        } else {
            match self.move_right(n) {
                Outcome::Done(next) => next.find_zero_right(n),
                other => other,
            }
        }
    }

    /// Moves left by `n` until the current cell is 0.
    pub open spec fn find_zero_left(self, n: int) -> Outcome
        decreases self.pos,
    {
        if !self.wf() || n < 1 || self.cell() == 0 {
            Outcome::Done(self)
        } else {
            match self.move_left(n) {
                Outcome::Done(next) => next.find_zero_left(n),
                other => other,
            }
        }
    }
}

/// Two outcomes agree: they halt alike with the same machine, fail with the
/// same error and the same output, or both run out of budget.
pub open spec fn agrees(a: Outcome, b: Outcome) -> bool {
    match (a, b) {
        (Outcome::Done(x), Outcome::Done(y)) => x == y,
        (Outcome::Fail(e, x), Outcome::Fail(f, y)) => e == f && x.output == y.output,
        (Outcome::OutOfFuel, Outcome::OutOfFuel) => true,
        _ => false,
    }
}

/// The machine that a tape and a pair of channels stand for.
pub open spec fn machine(state: State, rts: RtsState) -> Machine {
    Machine { tape: state.cells(), pos: state.pos(), input: rts.pending(), output: rts.written() }
}

/// Whether an interpreter's result `r`, with final machine `m`, is outcome `o`.
pub open spec fn reports(o: Outcome, r: Option<BfResult<()>>, m: Machine) -> bool {
    match r {
        None => o is OutOfFuel,
        Some(Ok(())) => o == Outcome::Done(m),
        Some(Err(e)) => o == Outcome::Fail(e, m),
    }
}

/// A tape of 8-bit cells with a pointer into it.
#[derive(Debug, PartialEq, Eq)]
pub struct State {
    memory: Vec<u8>,
    pointer: usize,
}

impl State {
    /// The cells of the tape.
    pub closed spec fn cells(self) -> Seq<u8> {
        self.memory@
    }

    /// The index of the current cell.
    pub closed spec fn pos(self) -> int {
        self.pointer as int
    }

    /// The pointer addresses a cell.
    pub open spec fn wf(self) -> bool {
        0 <= self.pos() < self.cells().len()
    }

    /// A zeroed tape of [`DEFAULT_CAPACITY`] cells, pointer at cell 0.
    pub fn new() -> (r: State)
        ensures
            r.wf(),
            r.cells() == zeroed(DEFAULT_CAPACITY as nat),
            r.pos() == 0,
    {
        State::with_capacity(DEFAULT_CAPACITY)
    }

    /// A zeroed tape of `memory_size` cells, pointer at cell 0.
    pub fn with_capacity(memory_size: usize) -> (r: State)
        requires
            memory_size >= 1,
        ensures
            r.wf(),
            r.cells() == zeroed(memory_size as nat),
            r.pos() == 0,
    {
        let mut memory: Vec<u8> = Vec::new();
        let mut i: usize = 0;
        while i < memory_size
            invariant
                i <= memory_size,
                memory@ == zeroed(i as nat),
            decreases memory_size - i,
        {
            memory.push(0);
            i = i + 1;
            assert(memory@ =~= zeroed(i as nat));
        }
        State { memory, pointer: 0 }
    }

    /// A tape holding `memory`, pointer at `pointer`.
    pub fn with_contents(memory: Vec<u8>, pointer: usize) -> (r: State)
        requires
            pointer < memory.len(),
        ensures
            r.wf(),
            r.cells() == memory@,
            r.pos() == pointer,
    {
        State { memory, pointer }
    }

    /// The index of the current cell.
    pub fn pointer(&self) -> (r: usize)
        ensures
            r == self.pos(),
    {
        self.pointer
    }

    /// Moves the pointer `count` cells left, failing below cell 0.
    pub fn left(&mut self, count: usize) -> (r: BfResult<()>)
        requires
            old(self).wf(),
        ensures
            final(self).wf(),
            final(self).cells() == old(self).cells(),
            count <= old(self).pos() ==> r == Ok::<(), Error>(()) && final(self).pos() == old(
                self,
            ).pos() - count,
            count > old(self).pos() ==> r == Err::<(), Error>(Error::PointerUnderflow)
                && final(self).pos() == old(self).pos(),
    {
        match self.neg_offset(count) {
            Ok(p) => {
                self.pointer = p;
                Ok(())
            },
            Err(e) => Err(e),
        }
    }

    /// Moves the pointer `count` cells right, failing at the end of the tape.
    pub fn right(&mut self, count: usize) -> (r: BfResult<()>)
        requires
            old(self).wf(),
        ensures
            final(self).wf(),
            final(self).cells() == old(self).cells(),
            old(self).pos() + count < old(self).cells().len() ==> r == Ok::<(), Error>(())
                && final(self).pos() == old(self).pos() + count,
            old(self).pos() + count >= old(self).cells().len() ==> r == Err::<(), Error>(
                Error::PointerOverflow,
            ) && final(self).pos() == old(self).pos(),
    {
        match self.pos_offset(count) {
            Ok(p) => {
                self.pointer = p;
                Ok(())
            },
            Err(e) => Err(e),
        }
    }

    /// The index `offset` cells right of the pointer, if it is on the tape.
    fn pos_offset(&self, offset: usize) -> (r: BfResult<usize>)
        requires
            self.wf(),
        ensures
            self.pos() + offset < self.cells().len() ==> (r matches Ok(p) && p == self.pos() + offset),
            self.pos() + offset >= self.cells().len() ==> r == Err::<usize, Error>(
                Error::PointerOverflow,
            ),
    {
        if offset < self.memory.len() - self.pointer {
            Ok(self.pointer + offset)
        } else {
            Err(Error::PointerOverflow)
        }
    }

    /// The index `offset` cells left of the pointer, if it is on the tape.
    fn neg_offset(&self, offset: usize) -> (r: BfResult<usize>)
        requires
            self.wf(),
        ensures
            offset <= self.pos() ==> r == Ok::<usize, Error>((self.pos() - offset) as usize),
            offset > self.pos() ==> r == Err::<usize, Error>(Error::PointerUnderflow),
    {
        if self.pointer >= offset {
            Ok(self.pointer - offset)
        } else {
            Err(Error::PointerUnderflow)
        }
    }

    /// Adds `count` to the current cell, wrapping modulo 256.
    pub fn up(&mut self, count: u8)
        requires
            old(self).wf(),
        ensures
            final(self).wf(),
            final(self).pos() == old(self).pos(),
            final(self).cells() == old(self).cells().update(
                old(self).pos(),
                wrapping_add(old(self).cells()[old(self).pos()], count),
            ),
    {
        let v = self.memory[self.pointer];
        self.memory.set(self.pointer, v.wrapping_add(count));
    }

    /// Subtracts `count` from the current cell, wrapping modulo 256.
    pub fn down(&mut self, count: u8)
        requires
            old(self).wf(),
        ensures
            final(self).wf(),
            final(self).pos() == old(self).pos(),
            final(self).cells() == old(self).cells().update(
                old(self).pos(),
                wrapping_sub(old(self).cells()[old(self).pos()], count),
            ),
    {
        let v = self.memory[self.pointer];
        self.memory.set(self.pointer, v.wrapping_sub(count));
    }

    /// The current cell.
    pub fn load(&self) -> (r: u8)
        requires
            self.wf(),
        ensures
            r == self.cells()[self.pos()],
    {
        self.memory[self.pointer]
    }

    /// Replaces the current cell.
    pub fn store(&mut self, value: u8)
        requires
            old(self).wf(),
        ensures
            final(self).wf(),
            final(self).pos() == old(self).pos(),
            final(self).cells() == old(self).cells().update(old(self).pos(), value),
    {
        self.memory.set(self.pointer, value);
    }

    /// Adds `value` to the cell `offset` to the right of the pointer.
    pub fn up_pos_offset(&mut self, offset: usize, value: u8) -> (r: BfResult<()>)
        requires
            old(self).wf(),
        ensures
            final(self).wf(),
            final(self).pos() == old(self).pos(),
            old(self).pos() + offset < old(self).cells().len() ==> r == Ok::<(), Error>(())
                && final(self).cells() == old(self).cells().update(
                old(self).pos() + offset,
                wrapping_add(old(self).cells()[old(self).pos() + offset], value),
            ),
            old(self).pos() + offset >= old(self).cells().len() ==> r == Err::<(), Error>(
                Error::PointerOverflow,
            ) && final(self).cells() == old(self).cells(),
    {
        match self.pos_offset(offset) {
            Ok(address) => {
                let v = self.memory[address];
                self.memory.set(address, v.wrapping_add(value));
                Ok(())
            },
            Err(e) => Err(e),
        }
    }

    /// Adds `value` to the cell `offset` to the left of the pointer.
    pub fn up_neg_offset(&mut self, offset: usize, value: u8) -> (r: BfResult<()>)
        requires
            old(self).wf(),
        ensures
            final(self).wf(),
            final(self).pos() == old(self).pos(),
            offset <= old(self).pos() ==> r == Ok::<(), Error>(()) && final(self).cells()
                == old(self).cells().update(
                old(self).pos() - offset,
                wrapping_add(old(self).cells()[old(self).pos() - offset], value),
            ),
            offset > old(self).pos() ==> r == Err::<(), Error>(Error::PointerUnderflow)
                && final(self).cells() == old(self).cells(),
    {
        match self.neg_offset(offset) {
            Ok(address) => {
                let v = self.memory[address];
                self.memory.set(address, v.wrapping_add(value));
                Ok(())
            },
            Err(e) => Err(e),
        }
    }

    /// Reads a byte from the channels into the current cell (0 at end of input).
    pub fn read(&mut self, rts: &mut RtsState)
        requires
            old(self).wf(),
        ensures
            final(self).wf(),
            machine(*final(self), *final(rts)) == machine(*old(self), *old(rts)).read(),
    {
        let b = rts.read();
        self.store(b);
    }

    /// Writes the current cell to the channels.
    pub fn write(&self, rts: &mut RtsState)
        requires
            self.wf(),
        ensures
            machine(*self, *final(rts)) == machine(*self, *old(rts)).write(),
    {
        let b = self.load();
        rts.write(b);
    }

    /// The number of cells.
    pub fn capacity(&self) -> (r: usize)
        ensures
            r == self.cells().len(),
    {
        self.memory.len()
    }

    /// The cells of the tape.
    pub fn memory(&self) -> (r: &Vec<u8>)
        ensures
            r@ == self.cells(),
    {
        &self.memory
    }
}

} // verus!
