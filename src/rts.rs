//! The run-time system: the byte channels that a program reads and writes.
//!
//! Input is a buffer of bytes consumed from the front; output is a buffer
//! that written bytes are appended to. Reading past the end of the input
//! yields 0, and writing never fails.

use vstd::prelude::*;

verus! {

/// The input and output channels of one run.
pub struct RtsState {
    input: Vec<u8>,
    position: usize,
    output: Vec<u8>,
}

impl RtsState {
    /// The input bytes not read yet.
    pub closed spec fn pending(self) -> Seq<u8> {
        if self.position <= self.input.len() {
            self.input@.subrange(self.position as int, self.input@.len() as int)
        } else {
            Seq::empty()
        }
    }

    /// The bytes written so far.
    pub closed spec fn written(self) -> Seq<u8> {
        self.output@
    }

    /// Channels that read `input` and append to `output`.
    pub fn new(input: Vec<u8>, output: Vec<u8>) -> (r: RtsState)
        ensures
            r.pending() == input@,
            r.written() == output@,
    {
        let r = RtsState { input, position: 0, output };
        assert(r.pending() =~= input@);
        r
    }

    /// Reads one byte; at the end of the input, returns 0 and reads nothing.
    pub fn read(&mut self) -> (r: u8)
        ensures
            old(self).pending().len() > 0 ==> r == old(self).pending()[0]
                && final(self).pending() == old(self).pending().drop_first(),
            old(self).pending().len() == 0 ==> r == 0 && final(self).pending()
                == old(self).pending(),
            final(self).written() == old(self).written(),
    {
        if self.position < self.input.len() {
            let b = self.input[self.position];
            self.position = self.position + 1;
            assert(self.pending() =~= old(self).pending().drop_first());
            b
        } else {
            0
        }
    }

    /// Appends one byte to the output.
    pub fn write(&mut self, byte: u8)
        ensures
            final(self).pending() == old(self).pending(),
            final(self).written() == old(self).written().push(byte),
    {
        self.output.push(byte);
    }

    /// The bytes written so far.
    pub fn output(&self) -> (r: &Vec<u8>)
        ensures
            r@ == self.written(),
    {
        &self.output
    }

    /// Ends the run, handing back what was written.
    pub fn into_output(self) -> (r: Vec<u8>)
        ensures
            r@ == self.written(),
    {
        self.output
    }
}

} // verus!
