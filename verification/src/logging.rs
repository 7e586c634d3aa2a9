//! The transaction log: an append-only buffer of rendered transaction
//! lines.  Every committed mutation is appended exactly once, in commit
//! order; flushing the buffered lines to durable storage is the caller's
//! concern.

use vstd::prelude::*;

use crate::transaction::TransactionType;

verus! {

/// The append-only transaction log buffer.
pub struct Log {
    lines: Vec<String>,
}

impl View for Log {
    type V = Seq<Seq<char>>;

    closed spec fn view(&self) -> Seq<Seq<char>> {
        self.lines@.map_values(|l: String| l@)
    }
}

impl Log {
    /// An empty log.
    pub fn new() -> (r: Log)
        ensures
            r@ == Seq::<Seq<char>>::empty(),
    {
        let r = Log { lines: Vec::new() };
        proof {
            assert(r@ =~= Seq::<Seq<char>>::empty());
        }
        r
    }

    /// Appends the rendered line of one committed transaction.
    pub fn append(&mut self, t: &TransactionType)
        ensures
            final(self)@ == old(self)@.push(t.line()),
    {
        let line = t.render();
        self.lines.push(line);
        proof {
            assert(self@ =~= old(self)@.push(t.line()));
        }
    }

    /// The number of logged lines.
    pub fn len(&self) -> (n: usize)
        ensures
            n == self@.len(),
    {
        self.lines.len()
    }

    /// A copy of the logged line at one index.
    pub fn line_at(&self, i: usize) -> (s: String)
        requires
            i < self@.len(),
        ensures
            s@ == self@[i as int],
    {
        self.lines[i].clone()
    }
}

} // verus!
