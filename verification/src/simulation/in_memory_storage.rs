//! Storage that keeps the durable state in memory; it never fails.
use vstd::prelude::*;
use crate::contracts::{DurableState, DurableStateView, Storage};

verus! {

#[derive(Debug)]
pub struct InMemoryStorage {
    state: Option<DurableState>,
}

impl Default for InMemoryStorage {
    fn default() -> (s: Self)
        ensures
            s.persisted() == DurableStateView::initial(),
            s.reliable(),
    {
        Self::new()
    }
}

impl InMemoryStorage {
    /// Storage that holds nothing yet.
    pub fn new() -> (s: Self)
        ensures
            s.persisted() == DurableStateView::initial(),
            s.reliable(),
    {
        Self { state: None }
    }
}

impl Storage for InMemoryStorage {
    closed spec fn persisted(&self) -> DurableStateView {
        match self.state {
            Some(s) => s@,
            None => DurableStateView::initial(),
        }
    }

    /// Memory never fails to keep a state.
    closed spec fn reliable(&self) -> bool {
        true
    }

    /// The last state stored, or the initial state.
    fn load(&self) -> (state: DurableState) {
        match &self.state {
            Some(s) => s.duplicate(),
            None => DurableState::initial(),
        }
    }

    /// Keeps `state`; always succeeds.
    fn store(&mut self, state: &DurableState) -> (r: Result<(), std::io::Error>)
        ensures
            r is Ok,
    {
        self.state = Some(state.duplicate());
        Ok(())
    }
}

} // verus!
