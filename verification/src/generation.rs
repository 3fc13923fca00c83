//! Decoding token by token: which tokens go into the next pass, and when it
//! ends.
use vstd::prelude::*;

verus! {

/// The tokens of the next pass.
#[derive(Clone, Copy, PartialEq, Eq, Structural, Debug)]
pub struct Input {
    /// Place of the first of them among all tokens; they go up to the end.
    pub from: usize,
    /// Position that the first of them is read at.
    pub start_pos: usize,
}

/// A sequence that grows by one token per pass.
#[derive(Debug)]
pub struct Generation {
    pub tokens: Vec<u32>,
    /// Tokens that have been read.
    pub start_pos: usize,
    /// Passes so far.
    pub index: usize,
    /// Tokens added so far.
    pub generated: usize,
    /// Passes at most.
    pub sample_len: usize,
    /// The token that ends the sequence.
    pub eos: Option<u32>,
}

impl Generation {
    /// Everything that was read is there, and all but the newest token has been
    /// read.
    pub open spec fn wf(self) -> bool {
        &&& self.start_pos <= self.tokens.len()
        &&& self.index == 0 ==> self.start_pos == 0
        &&& self.index > 0 ==> self.tokens.len() <= self.start_pos + 1
        &&& self.generated <= self.tokens.len()
    }

    pub fn new(tokens: Vec<u32>, sample_len: usize, eos: Option<u32>) -> (r: Generation)
        ensures
            r.wf(),
            r.tokens@ == tokens@,
            r.start_pos == 0,
            r.index == 0,
            r.generated == 0,
            r.sample_len == sample_len,
            r.eos == eos,
    {
        Generation { tokens, start_pos: 0, index: 0, generated: 0, sample_len, eos }
    }

    /// Another pass is due: none was made yet, or the last one added a token.
    pub open spec fn due(self) -> bool {
        self.index < self.sample_len && (self.index == 0 || self.tokens.len() == self.start_pos + 1)
    }

    /// The tokens of the next pass: the whole prompt first, then the newest
    /// token. Each token is read once, at its own place.
    pub fn next_input(&mut self) -> (r: Option<Input>)
        requires
            old(self).wf(),
        ensures
            final(self).wf(),
            !old(self).due() ==> r is None && *final(self) == *old(self),
            old(self).due() ==> {
                &&& r matches Some(i)
                &&& i.from == old(self).start_pos
                &&& i.start_pos == i.from
                &&& final(self).start_pos == old(self).tokens.len()
                &&& final(self).index == old(self).index + 1
                &&& *final(self) == (Generation {
                    start_pos: final(self).start_pos,
                    index: final(self).index,
                    ..*old(self)
                })
            },
    {
        let n: usize = self.tokens.len();
        if self.index >= self.sample_len || self.index > 0 && n - self.start_pos != 1 {
            return None;
        }
        let context: usize = if self.index == 0 { n } else { 1 };
        let start_pos: usize = self.start_pos;
        self.start_pos = start_pos + context;
        self.index = self.index + 1;
        Some(Input { from: n - context, start_pos })
    }

    /// Takes in what the last pass chose; says whether the sequence goes on.
    pub fn accept(&mut self, next: u32) -> (r: bool)
        requires
            old(self).wf(),
            old(self).index > 0,
            old(self).start_pos == old(self).tokens.len(),
            old(self).tokens.len() < usize::MAX,
        ensures
            final(self).wf(),
            r == (old(self).eos != Some(next)),
            !r ==> *final(self) == *old(self),
            r ==> {
                &&& final(self).tokens@ == old(self).tokens@.push(next)
                &&& final(self).generated == old(self).generated + 1
                &&& *final(self) == (Generation {
                    tokens: final(self).tokens,
                    generated: final(self).generated,
                    ..*old(self)
                })
            },
    {
        if let Some(e) = self.eos {
            if e == next {
                return false;
            }
        }
        self.tokens.push(next);
        self.generated = self.generated + 1;
        true
    }

    /// Place of the first of the newest `last_n` tokens, whose repetition is
    /// made less likely.
    pub fn penalized_from(&self, last_n: usize) -> (r: usize)
        ensures
            r == (if self.tokens.len() >= last_n {
                self.tokens.len() - last_n
            } else {
                0
            }),
    {
        self.tokens.len().saturating_sub(last_n)
    }
}

/// Reading is complete and in order: what a pass reads begins where the pass
/// before it ended.
pub proof fn law_reads_each_token_once(a: Generation, b: Generation, token: u32)
    requires
        a.wf(),
        a.index > 0,
        a.start_pos == a.tokens.len(),
        b == (Generation { tokens: b.tokens, generated: b.generated, ..a }),
        b.tokens@ == a.tokens@.push(token),
        b.generated == a.generated + 1,
        b.index < b.sample_len,
    ensures
        b.wf(),
        b.due(),
        b.start_pos == a.tokens.len(),
        b.tokens@[b.start_pos as int] == token,
{
}

} // verus!
