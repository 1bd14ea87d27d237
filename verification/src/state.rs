//! The holder of the most recent merged book. An update replaces the book
//! whole and a read copies it whole, so a reader sees the book as one update
//! left it and never parts of two. Whoever shares the holder among threads
//! keeps it behind a lock for the length of one call.

use vstd::prelude::*;
use crate::book::OrderBook;

verus! {

/// The most recent merged book.
pub struct SharedBookState {
    current: OrderBook,
}

impl SharedBookState {
    /// The book that is held.
    pub closed spec fn held(&self) -> OrderBook {
        self.current
    }

    /// The book that is held is always well formed.
    #[verifier::type_invariant]
    spec fn well_formed(&self) -> bool {
        self.current.wf()
    }

    /// A state that holds the empty book: no bids, no asks, no spread.
    pub fn new() -> (r: SharedBookState)
        ensures
            r.held().bids@.len() == 0,
            r.held().asks@.len() == 0,
            r.held().spread is None,
            r.held().wf(),
    {
        SharedBookState { current: OrderBook::new() }
    }

    /// Replaces the book that is held by `view`.
    pub fn update(&mut self, view: OrderBook)
        requires
            view.wf(),
        ensures
            final(self).held() == view,
    {
        self.current = view;
    }

    /// Replaces the book that is held by `view` where `view` is well formed,
    /// and leaves it as it is where not. Says whether it replaced it.
    pub fn try_update(&mut self, view: OrderBook) -> (r: bool)
        ensures
            r == view.wf(),
            r ==> final(self).held() == view,
            !r ==> final(self).held() == old(self).held(),
    {
        if view.is_well_formed() {
            self.update(view);
            true
        } else {
            false
        }
    }

    /// A copy of the book that is held: the same orders on both sides and
    /// the same spread.
    pub fn read(&self) -> (r: OrderBook)
        ensures
            r.bids@ == self.held().bids@,
            r.asks@ == self.held().asks@,
            r.spread == self.held().spread,
            r.wf(),
            self.held().wf(),
    {
        proof {
            use_type_invariant(self);
        }
        self.current.return_book()
    }
}

} // verus!
