//! An in-memory byte source.
//!
//! The transport layer hands the codec plain bytes; decoding walks them with
//! a cursor. `rest()` is the sequence of bytes not yet consumed, and every
//! decode contract is stated over the `rest()` at entry.

use vstd::prelude::*;

verus! {

/// A byte source: a buffer and a cursor over it.
pub struct Reader {
    pub data: Vec<u8>,
    pub pos: usize,
}

impl Reader {
    /// The cursor never runs past the end of the buffer.
    pub open spec fn wf(&self) -> bool {
        self.pos <= self.data@.len()
    }

    /// The bytes not yet consumed.
    pub open spec fn rest(&self) -> Seq<u8> {
        self.data@.skip(self.pos as int)
    }

    /// A fresh source over the given bytes.
    pub fn new(data: Vec<u8>) -> (r: Reader)
        ensures
            r.wf(),
            r.data@ == data@,
            r.pos == 0,
            r.rest() == data@,
    {
        let r = Reader { data, pos: 0 };
        proof {
            assert(r.rest() =~= r.data@);
        }
        r
    }

    /// How many bytes are left.
    pub fn remaining(&self) -> (n: usize)
        requires
            self.wf(),
        ensures
            n == self.rest().len(),
    {
        self.data.len() - self.pos
    }

    /// The next byte, if any, without consuming it.
    pub fn peek(&self) -> (r: Option<u8>)
        requires
            self.wf(),
        ensures
            match r {
                Some(b) => self.rest().len() > 0 && b == self.rest()[0],
                None => self.rest().len() == 0,
            },
    {
        if self.pos < self.data.len() {
            Some(self.data[self.pos])
        } else {
            None
        }
    }

    /// Consume and return one byte, if any.
    pub fn read_one(&mut self) -> (r: Option<u8>)
        requires
            old(self).wf(),
        ensures
            final(self).wf(),
            final(self).data@ == old(self).data@,
            match r {
                Some(b) => {
                    &&& old(self).rest().len() > 0
                    &&& b == old(self).rest()[0]
                    &&& final(self).pos == old(self).pos + 1
                    &&& final(self).rest() == old(self).rest().skip(1)
                },
                None => old(self).rest().len() == 0 && final(self).pos == old(self).pos,
            },
    {
        if self.pos < self.data.len() {
            let b = self.data[self.pos];
            self.pos = self.pos + 1;
            proof {
                assert(self.rest() =~= old(self).rest().skip(1));
            }
            Some(b)
        } else {
            None
        }
    }

    /// Consume `n` bytes and return them as an owned buffer, or `None`
    /// (consuming nothing) when fewer than `n` bytes are left.
    pub fn take(&mut self, n: usize) -> (r: Option<Vec<u8>>)
        requires
            old(self).wf(),
        ensures
            final(self).wf(),
            final(self).data@ == old(self).data@,
            match r {
                Some(taken) => {
                    &&& old(self).rest().len() >= n
                    &&& taken@ == old(self).rest().take(n as int)
                    &&& final(self).pos == old(self).pos + n
                    &&& final(self).rest() == old(self).rest().skip(n as int)
                },
                None => old(self).rest().len() < n && final(self).pos == old(self).pos,
            },
    {
        if n > self.data.len() - self.pos {
            return None;
        }
        let mut taken: Vec<u8> = Vec::new();
        let end: usize = self.pos + n;
        let mut j: usize = self.pos;
        while j < end
            invariant
                old(self).wf(),
                self.pos == old(self).pos,
                self.data@ == old(self).data@,
                self.pos <= j <= end,
                end == old(self).pos + n,
                end <= self.data@.len(),
                taken@ == old(self).rest().take(n as int).take(j - old(self).pos),
            decreases end - j,
        {
            taken.push(self.data[j]);
            j = j + 1;
            proof {
                assert(taken@ =~= old(self).rest().take(n as int).take(j - old(self).pos));
            }
        }
        self.pos = self.pos + n;
        proof {
            assert(taken@ =~= old(self).rest().take(n as int));
            assert(self.rest() =~= old(self).rest().skip(n as int));
        }
        Some(taken)
    }
}

} // verus!
