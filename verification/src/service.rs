//! What a subscriber is sent: a summary of the book that is held when the
//! subscription arrives.

use vstd::prelude::*;
use crate::book::{exchange_name, Order, OrderBook};
use crate::decimal::Decimal;
use crate::state::SharedBookState;

verus! {

/// One level of a summary.
#[derive(Debug)]
pub struct Level {
    pub exchange: String,
    pub price: Decimal,
    pub amount: Decimal,
}

/// The one message that a subscription is answered with.
#[derive(Debug)]
pub struct Summary {
    pub spread: Option<i128>,
    pub bids: Vec<Level>,
    pub asks: Vec<Level>,
}

/// The distribution service.
#[derive(Debug)]
pub struct Aggregator {}

/// `l` is the order `o` with its venue written by name.
pub open spec fn is_level_of(o: Order, l: Level) -> bool {
    &&& l.exchange@ == exchange_name(o.exchange)
    &&& l.price == o.price
    &&& l.amount == o.qty
}

/// `ls` are the orders `os`, one for one and in their order.
pub open spec fn are_levels_of(os: Seq<Order>, ls: Seq<Level>) -> bool {
    &&& ls.len() == os.len()
    &&& forall|i: int| 0 <= i < os.len() ==> is_level_of(os[i], #[trigger] ls[i])
}

/// `s` is the summary of `book`: its spread and its levels on both sides.
pub open spec fn summarizes(book: OrderBook, s: Summary) -> bool {
    &&& s.spread == book.spread
    &&& are_levels_of(book.bids@, s.bids@)
    &&& are_levels_of(book.asks@, s.asks@)
}

/// The summary of a book without orders has no levels and no spread: that
/// is what a subscriber gets before either venue has delivered anything.
pub proof fn lemma_empty_summary(book: OrderBook, s: Summary)
    requires
        book.wf(),
        book.bids@.len() == 0,
        book.asks@.len() == 0,
        summarizes(book, s),
    ensures
        s.bids@.len() == 0,
        s.asks@.len() == 0,
        s.spread is None,
{
}

/// The levels of a summary for one side of a book.
pub fn to_levels(orders: &Vec<Order>) -> (r: Vec<Level>)
    ensures
        are_levels_of(orders@, r@),
{
    let mut out: Vec<Level> = Vec::new();
    let mut i: usize = 0;
    while i < orders.len()
        invariant
            i <= orders.len(),
            are_levels_of(orders@.subrange(0, i as int), out@),
        decreases orders.len() - i,
    {
        let o = orders[i];
        out.push(Level { exchange: o.exchange.name(), price: o.price, amount: o.qty });
        i += 1;
        proof {
            let done = orders@.subrange(0, i as int);
            assert forall|k: int| 0 <= k < done.len() implies is_level_of(
                done[k],
                #[trigger] out@[k],
            ) by {
                if k < i - 1 {
                    assert(done[k] == orders@.subrange(0, i - 1)[k]);
                }
            }
        }
    }
    proof {
        assert(orders@.subrange(0, i as int) =~= orders@);
    }
    out
}

impl Summary {
    /// The summary of a book.
    pub fn of_book(book: &OrderBook) -> (r: Summary)
        ensures
            summarizes(*book, r),
    {
        Summary { spread: book.spread, bids: to_levels(&book.bids), asks: to_levels(&book.asks) }
    }
}

impl Default for Aggregator {
    fn default() -> (r: Aggregator) {
        Aggregator {  }
    }
}

impl Aggregator {
    /// Answers one subscription: reads the book that is held and hands back
    /// its summary, the one message of that subscription.
    pub fn book_summary(&self, state: &SharedBookState) -> (r: Summary)
        ensures
            summarizes(state.held(), r),
            state.held().wf(),
    {
        let book = state.read();
        Summary::of_book(&book)
    }
}

} // verus!
