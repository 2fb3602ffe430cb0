//! A log of events that is flushed in batches: once it holds 64 lines they go
//! out together.
use vstd::prelude::*;
use crate::text::{join_lines, join_with_newlines};

verus! {

/// How many lines make a batch.
pub const BATCH: usize = 64;

#[derive(Debug)]
pub struct ActivityLog {
    buffer: Vec<String>,
}

impl View for ActivityLog {
    type V = Seq<Seq<char>>;

    closed spec fn view(&self) -> Seq<Seq<char>> {
        self.buffer@.map_values(|s: String| s@)
    }
}

impl ActivityLog {
    /// An empty log.
    pub fn new() -> (log: Self)
        ensures
            log@ == Seq::<Seq<char>>::empty(),
    {
        let log = Self { buffer: Vec::new() };
        proof {
            assert(log@ =~= Seq::<Seq<char>>::empty());
        }
        log
    }

    /// Adds a line. When that makes a full batch, the log is emptied and its
    /// lines come back joined by newlines, for the caller to print.
    pub fn record(&mut self, event: String) -> (flushed: Option<String>)
        ensures
            old(self)@.len() + 1 >= BATCH ==> final(self)@ == Seq::<Seq<char>>::empty()
                && (flushed matches Some(s) && s@ == join_lines(old(self)@.push(event@))),
            old(self)@.len() + 1 < BATCH ==> final(self)@ == old(self)@.push(event@) && flushed is None,
    {
        let ghost e = event@;
        self.buffer.push(event);
        proof {
            assert(self@ =~= old(self)@.push(e));
        }
        if self.buffer.len() >= BATCH {
            self.take_events()
        } else {
            None
        }
    }

    /// Empties the log and gives back its lines joined by newlines, or `None`
    /// when it was empty.
    pub fn take_events(&mut self) -> (r: Option<String>)
        ensures
            final(self)@ == Seq::<Seq<char>>::empty(),
            old(self)@.len() == 0 ==> r is None,
            old(self)@.len() > 0 ==> (r matches Some(s) && s@ == join_lines(old(self)@)),
    {
        if self.buffer.is_empty() {
            return None;
        }
        let message = join_with_newlines(&self.buffer);
        self.buffer.clear();
        proof {
            assert(self@ =~= Seq::<Seq<char>>::empty());
        }
        Some(message)
    }
}

} // verus!
