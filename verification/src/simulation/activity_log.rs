//! What happened during a simulation, line by line, kept until it is printed.
use vstd::prelude::*;
use crate::text::{join_lines, join_with_newlines};

verus! {

#[derive(Debug)]
pub struct ActivityLog {
    buffer: Vec<String>,
}

impl View for ActivityLog {
    type V = Seq<Seq<char>>;

    closed spec fn view(&self) -> Seq<Seq<char>> {
        self.buffer@.map_values(|s: String| s@)
    }
}

impl Default for ActivityLog {
    fn default() -> (log: Self)
        ensures
            log@ == Seq::<Seq<char>>::empty(),
    {
        Self::new()
    }
}

impl ActivityLog {
    /// An empty log.
    pub fn new() -> (log: Self)
        ensures
            log@ == Seq::<Seq<char>>::empty(),
    {
        let log = Self { buffer: Vec::new() };
        proof {
            assert(log@ =~= Seq::<Seq<char>>::empty());
        }
        log
    }

    /// Adds a line.
    pub fn record(&mut self, event: String)
        ensures
            final(self)@ == old(self)@.push(event@),
    {
        let ghost e = event@;
        self.buffer.push(event);
        proof {
            assert(self@ =~= old(self)@.push(e));
        }
    }

    /// Empties the log and gives back its lines joined by newlines, or `None`
    /// when it was empty. Printing them is the caller's part.
    pub fn take_events(&mut self) -> (r: Option<String>)
        ensures
            final(self)@ == Seq::<Seq<char>>::empty(),
            old(self)@.len() == 0 ==> r is None,
            old(self)@.len() > 0 ==> (r matches Some(s) && s@ == join_lines(old(self)@)),
    {
        if self.buffer.is_empty() {
            return None;
        }
        let message = join_with_newlines(&self.buffer);
        self.buffer.clear();
        proof {
            assert(self@ =~= Seq::<Seq<char>>::empty());
        }
        Some(message)
    }
}

} // verus!
