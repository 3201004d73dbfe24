//! A value-level model of the platform console: the characters the
//! firmware still has pending for input, and the bytes the kernel has
//! written to output. The firmware calls themselves happen outside this
//! crate; syscall handlers work against this state.

use vstd::prelude::*;

verus! {

/// The console's observable state: pending input words and written
/// output bytes. The firmware reports a character as a machine word and
/// a zero word when input is exhausted.
pub struct Console {
    input: Vec<u64>,
    output: Vec<u8>,
}

impl Console {
    /// The pending input characters, oldest first.
    pub closed spec fn input_spec(&self) -> Seq<u64> {
        self.input@
    }

    /// Everything written so far.
    pub closed spec fn output_spec(&self) -> Seq<u8> {
        self.output@
    }

    /// A console with nothing pending and nothing written.
    pub fn new() -> (r: Console)
        ensures
            r.input_spec().len() == 0,
            r.output_spec().len() == 0,
    {
        Console { input: Vec::new(), output: Vec::new() }
    }

    /// A console whose firmware will deliver exactly these characters.
    pub fn with_input(input: Vec<u64>) -> (r: Console)
        ensures
            r.input_spec() == input@,
            r.output_spec().len() == 0,
    {
        Console { input, output: Vec::new() }
    }

    /// Pull one character: the oldest pending word, or zero when none is
    /// pending (the firmware's exhaustion signal).
    pub fn getchar(&mut self) -> (r: u64)
        ensures
            final(self).output_spec() == old(self).output_spec(),
            old(self).input_spec().len() == 0 ==> r == 0 && final(self).input_spec() == old(self).input_spec(),
            old(self).input_spec().len() > 0 ==> r == old(self).input_spec()[0] && final(self).input_spec() == old(self).input_spec().subrange(
                1,
                old(self).input_spec().len() as int,
            ),
    {
        if self.input.len() == 0 {
            0
        } else {
            self.input.remove(0)
        }
    }

    /// Write bytes to the console output.
    pub fn put_bytes(&mut self, b: &[u8])
        ensures
            final(self).input_spec() == old(self).input_spec(),
            final(self).output_spec() == old(self).output_spec() + b@,
    {
        let mut k: usize = 0;
        while k < b.len()
            invariant
                self.input@ == old(self).input_spec(),
                k <= b@.len(),
                self.output@ == old(self).output_spec() + b@.subrange(0, k as int),
            decreases b@.len() - k,
        {
            self.output.push(b[k]);
            proof {
                assert(self.output@ =~= old(self).output_spec() + b@.subrange(0, k + 1));
            }
            k = k + 1;
        }
        proof {
            assert(b@.subrange(0, b@.len() as int) =~= b@);
        }
    }

    /// The bytes written so far, for the platform layer to drain.
    pub fn output(&self) -> (r: &Vec<u8>)
        ensures
            r@ == self.output_spec(),
    {
        &self.output
    }
}

} // verus!
