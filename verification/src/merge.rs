//! The bounded merge of two venues' levels into one ranked side.

use vstd::prelude::*;
use crate::book::{better, no_worse, Exchange, Order, PriceLevel, Side, CAP_N};
use crate::decimal::Decimal;

verus! {

/// The level `l` as an order of the venue `x`.
pub open spec fn tagged(x: Exchange, l: PriceLevel) -> Order {
    Order { exchange: x, price: l.price, qty: l.quantity }
}

/// The next entry of the merge comes from the first venue: it has a level
/// left, and the second venue has none or no strictly better one.
pub open spec fn takes_first(side: Side, a: Seq<PriceLevel>, b: Seq<PriceLevel>) -> bool {
    a.len() > 0 && (b.len() == 0 || no_worse(side, a[0].price, b[0].price))
}

/// The first `cap` entries of the merge of `a` (first venue) and `b` (second
/// venue): at each step the better of the two front levels, the first venue's
/// on equal prices, until `cap` entries are out or both are used up.
pub open spec fn merged(side: Side, a: Seq<PriceLevel>, b: Seq<PriceLevel>, cap: nat) -> Seq<Order>
    decreases cap,
{
    if cap == 0 || (a.len() == 0 && b.len() == 0) {
        Seq::empty()
    } else if takes_first(side, a, b) {
        seq![tagged(Exchange::Bitstamp, a[0])] + merged(side, a.drop_first(), b, (cap - 1) as nat)
    } else {
        seq![tagged(Exchange::Binance, b[0])] + merged(side, a, b.drop_first(), (cap - 1) as nat)
    }
}

/// Each level of `s` is no worse than the one after it.
pub open spec fn ranked(side: Side, s: Seq<PriceLevel>) -> bool {
    forall|i: int, j: int| 0 <= i < j < s.len() ==> no_worse(side, s[i].price, s[j].price)
}

/// Each level of `s` is strictly better than the one after it.
pub open spec fn strictly_ranked(side: Side, s: Seq<PriceLevel>) -> bool {
    forall|i: int, j: int| 0 <= i < j < s.len() ==> better(side, s[i].price, s[j].price)
}

/// No price of `a` is a price of `b`.
pub open spec fn disjoint_prices(a: Seq<PriceLevel>, b: Seq<PriceLevel>) -> bool {
    forall|i: int, j: int| 0 <= i < a.len() && 0 <= j < b.len() ==> a[i].price != b[j].price
}

/// Each order of `s` is no worse than the one after it.
pub open spec fn orders_ranked(side: Side, s: Seq<Order>) -> bool {
    forall|i: int, j: int| 0 <= i < j < s.len() ==> no_worse(side, s[i].price, s[j].price)
}

/// Each order of `s` is strictly better than the one after it.
pub open spec fn orders_strictly_ranked(side: Side, s: Seq<Order>) -> bool {
    forall|i: int, j: int| 0 <= i < j < s.len() ==> better(side, s[i].price, s[j].price)
}

fn price_no_worse(side: Side, a: Decimal, b: Decimal) -> (r: bool)
    ensures
        r == no_worse(side, a, b),
{
    match side {
        Side::Bid => a.units >= b.units,
        Side::Ask => a.units <= b.units,
    }
}

/// Merges one side of two venues' books, `a` of the first venue and `b` of the
/// second, into at most `cap` tagged orders.
pub fn merge_levels(side: Side, a: &Vec<PriceLevel>, b: &Vec<PriceLevel>, cap: usize) -> (r: Vec<
    Order,
>)
    ensures
        r@ == merged(side, a@, b@, cap as nat),
{
    let mut out: Vec<Order> = Vec::new();
    let mut i: usize = 0;
    let mut j: usize = 0;
    proof {
        assert(a@.skip(0) =~= a@);
        assert(b@.skip(0) =~= b@);
        assert(out@ + merged(side, a@, b@, cap as nat) =~= merged(side, a@, b@, cap as nat));
    }
    while out.len() < cap && (i < a.len() || j < b.len())
        invariant
            i <= a.len(),
            j <= b.len(),
            out@.len() <= cap,
            out@.len() == i + j,
            merged(side, a@, b@, cap as nat) == out@ + merged(
                side,
                a@.skip(i as int),
                b@.skip(j as int),
                (cap - out@.len()) as nat,
            ),
        decreases cap - out.len(),
    {
        let ghost ra = a@.skip(i as int);
        let ghost rb = b@.skip(j as int);
        let ghost left = (cap - out@.len()) as nat;
        let ghost before = out@;
        let first: bool = i < a.len() && (j >= b.len() || price_no_worse(
            side,
            a[i].price,
            b[j].price,
        ));
        proof {
            assert(first == takes_first(side, ra, rb));
            if i < a.len() {
                assert(ra.drop_first() =~= a@.skip(i + 1));
            }
            if j < b.len() {
                assert(rb.drop_first() =~= b@.skip(j + 1));
            }
        }
        if first {
            out.push(Order { exchange: Exchange::Bitstamp, price: a[i].price, qty: a[i].quantity });
            i += 1;
        } else {
            out.push(Order { exchange: Exchange::Binance, price: b[j].price, qty: b[j].quantity });
            j += 1;
        }
        proof {
            let rest = merged(side, a@.skip(i as int), b@.skip(j as int), (left - 1) as nat);
            assert(merged(side, ra, rb, left) == seq![out@.last()] + rest);
            assert(before + (seq![out@.last()] + rest) =~= out@ + rest);
        }
    }
    proof {
        assert(out@ + Seq::<Order>::empty() =~= out@);
    }
    out
}

/// The best bids of both venues, highest price first, at most `CAP_N`.
pub fn mergebids(bids1: Vec<PriceLevel>, bids2: Vec<PriceLevel>) -> (r: Vec<Order>)
    ensures
        r@ == merged(Side::Bid, bids1@, bids2@, CAP_N as nat),
{
    merge_levels(Side::Bid, &bids1, &bids2, CAP_N)
}

/// The best asks of both venues, lowest price first, at most `CAP_N`.
pub fn mergeasks(asks1: Vec<PriceLevel>, asks2: Vec<PriceLevel>) -> (r: Vec<Order>)
    ensures
        r@ == merged(Side::Ask, asks1@, asks2@, CAP_N as nat),
{
    merge_levels(Side::Ask, &asks1, &asks2, CAP_N)
}

spec fn rel(strict: bool, side: Side, x: Decimal, y: Decimal) -> bool {
    if strict {
        better(side, x, y)
    } else {
        no_worse(side, x, y)
    }
}

spec fn levels_rel(strict: bool, side: Side, s: Seq<PriceLevel>) -> bool {
    forall|i: int, j: int| 0 <= i < j < s.len() ==> rel(strict, side, s[i].price, s[j].price)
}

spec fn orders_rel(strict: bool, side: Side, s: Seq<Order>) -> bool {
    forall|i: int, j: int| 0 <= i < j < s.len() ==> rel(strict, side, s[i].price, s[j].price)
}

spec fn ahead_of_levels(strict: bool, side: Side, p: Decimal, s: Seq<PriceLevel>) -> bool {
    forall|i: int| 0 <= i < s.len() ==> rel(strict, side, p, #[trigger] s[i].price)
}

spec fn ahead_of_orders(strict: bool, side: Side, p: Decimal, s: Seq<Order>) -> bool {
    forall|i: int| 0 <= i < s.len() ==> rel(strict, side, p, #[trigger] s[i].price)
}

fn price_ahead(strict: bool, side: Side, a: Decimal, b: Decimal) -> (r: bool)
    ensures
        r == rel(strict, side, a, b),
{
    match side {
        Side::Bid => if strict {
            a.units > b.units
        } else {
            a.units >= b.units
        },
        Side::Ask => if strict {
            a.units < b.units
        } else {
            a.units <= b.units
        },
    }
}

fn check_order(strict: bool, side: Side, levels: &Vec<PriceLevel>) -> (r: bool)
    ensures
        r == levels_rel(strict, side, levels@),
{
    let mut i: usize = 1;
    while i < levels.len()
        invariant
            1 <= i,
            forall|x: int, y: int|
                0 <= x < y < i && y < levels@.len() ==> rel(
                    strict,
                    side,
                    levels@[x].price,
                    levels@[y].price,
                ),
        decreases levels.len() - i,
    {
        if !price_ahead(strict, side, levels[i - 1].price, levels[i].price) {
            return false;
        }
        proof {
            assert forall|x: int, y: int| 0 <= x < y < i + 1 && y < levels@.len() implies rel(
                strict,
                side,
                levels@[x].price,
                levels@[y].price,
            ) by {
                if y == i && x < i - 1 {
                    assert(rel(strict, side, levels@[x].price, levels@[i - 1].price));
                }
            }
        }
        i += 1;
    }
    true
}

/// Whether the levels come best first.
pub fn is_ranked(side: Side, levels: &Vec<PriceLevel>) -> (r: bool)
    ensures
        r == ranked(side, levels@),
{
    let r = check_order(false, side, levels);
    proof {
        let s = levels@;
        if r {
            assert forall|i: int, j: int| 0 <= i < j < s.len() implies no_worse(
                side,
                s[i].price,
                s[j].price,
            ) by {
                assert(rel(false, side, s[i].price, s[j].price));
            }
        } else if ranked(side, s) {
            assert forall|i: int, j: int| 0 <= i < j < s.len() implies rel(
                false,
                side,
                s[i].price,
                s[j].price,
            ) by {
                assert(no_worse(side, s[i].price, s[j].price));
            }
        }
    }
    r
}

/// Whether each level is strictly better than the one after it.
pub fn is_strictly_ranked(side: Side, levels: &Vec<PriceLevel>) -> (r: bool)
    ensures
        r == strictly_ranked(side, levels@),
{
    let r = check_order(true, side, levels);
    proof {
        let s = levels@;
        if r {
            assert forall|i: int, j: int| 0 <= i < j < s.len() implies better(
                side,
                s[i].price,
                s[j].price,
            ) by {
                assert(rel(true, side, s[i].price, s[j].price));
            }
        } else if strictly_ranked(side, s) {
            assert forall|i: int, j: int| 0 <= i < j < s.len() implies rel(
                true,
                side,
                s[i].price,
                s[j].price,
            ) by {
                assert(better(side, s[i].price, s[j].price));
            }
        }
    }
    r
}

/// A price ahead of every level of both inputs is ahead of every merged order.
proof fn lemma_merged_ahead(
    strict: bool,
    side: Side,
    a: Seq<PriceLevel>,
    b: Seq<PriceLevel>,
    cap: nat,
    p: Decimal,
)
    requires
        ahead_of_levels(strict, side, p, a),
        ahead_of_levels(strict, side, p, b),
    ensures
        ahead_of_orders(strict, side, p, merged(side, a, b, cap)),
    decreases cap,
{
    if cap == 0 || (a.len() == 0 && b.len() == 0) {
    } else if takes_first(side, a, b) {
        let rest_a = a.drop_first();
        assert forall|i: int| 0 <= i < rest_a.len() implies rel(
            strict,
            side,
            p,
            #[trigger] rest_a[i].price,
        ) by {
            assert(rest_a[i] == a[i + 1]);
        }
        lemma_merged_ahead(strict, side, rest_a, b, (cap - 1) as nat, p);
        assert(rel(strict, side, p, a[0].price));
    } else {
        let rest_b = b.drop_first();
        assert forall|i: int| 0 <= i < rest_b.len() implies rel(
            strict,
            side,
            p,
            #[trigger] rest_b[i].price,
        ) by {
            assert(rest_b[i] == b[i + 1]);
        }
        lemma_merged_ahead(strict, side, a, rest_b, (cap - 1) as nat, p);
        assert(rel(strict, side, p, b[0].price));
    }
}

#[verifier::rlimit(40)]
proof fn lemma_merged_rel(strict: bool, side: Side, a: Seq<PriceLevel>, b: Seq<PriceLevel>, cap: nat)
    requires
        levels_rel(strict, side, a),
        levels_rel(strict, side, b),
        strict ==> disjoint_prices(a, b),
    ensures
        orders_rel(strict, side, merged(side, a, b, cap)),
    decreases cap,
{
    if cap == 0 || (a.len() == 0 && b.len() == 0) {
    } else if takes_first(side, a, b) {
        let rest_a = a.drop_first();
        let head = a[0].price;
        assert forall|i: int| 0 <= i < rest_a.len() implies rel(
            strict,
            side,
            head,
            #[trigger] rest_a[i].price,
        ) by {
            assert(rest_a[i] == a[i + 1]);
        }
        assert forall|i: int, j: int| 0 <= i < j < rest_a.len() implies rel(
            strict,
            side,
            rest_a[i].price,
            rest_a[j].price,
        ) by {
            assert(rest_a[i] == a[i + 1] && rest_a[j] == a[j + 1]);
        }
        assert forall|i: int, j: int| 0 <= i < rest_a.len() && 0 <= j < b.len() implies rest_a[i].price
            != b[j].price || !strict by {
            assert(rest_a[i] == a[i + 1]);
        }
        assert forall|j: int| 0 <= j < b.len() implies rel(
            strict,
            side,
            head,
            #[trigger] b[j].price,
        ) by {
            assert(no_worse(side, head, b[0].price));
            if strict {
                assert(a[0].price != b[0].price);
            }
            if j > 0 {
                assert(rel(strict, side, b[0].price, b[j].price));
            }
        }
        let rest = merged(side, rest_a, b, (cap - 1) as nat);
        lemma_merged_rel(strict, side, rest_a, b, (cap - 1) as nat);
        lemma_merged_ahead(strict, side, rest_a, b, (cap - 1) as nat, head);
        let all = merged(side, a, b, cap);
        assert forall|i: int, j: int| 0 <= i < j < all.len() implies rel(
            strict,
            side,
            all[i].price,
            all[j].price,
        ) by {
            assert(all[j] == rest[j - 1]);
            if i > 0 {
                assert(all[i] == rest[i - 1]);
            }
        }
    } else {
        let rest_b = b.drop_first();
        let head = b[0].price;
        assert forall|i: int| 0 <= i < rest_b.len() implies rel(
            strict,
            side,
            head,
            #[trigger] rest_b[i].price,
        ) by {
            assert(rest_b[i] == b[i + 1]);
        }
        assert forall|i: int, j: int| 0 <= i < j < rest_b.len() implies rel(
            strict,
            side,
            rest_b[i].price,
            rest_b[j].price,
        ) by {
            assert(rest_b[i] == b[i + 1] && rest_b[j] == b[j + 1]);
        }
        assert forall|i: int, j: int| 0 <= i < a.len() && 0 <= j < rest_b.len() implies a[i].price
            != rest_b[j].price || !strict by {
            assert(rest_b[j] == b[j + 1]);
        }
        assert forall|i: int| 0 <= i < a.len() implies rel(
            strict,
            side,
            head,
            #[trigger] a[i].price,
        ) by {
            assert(better(side, head, a[0].price));
            if i > 0 {
                assert(rel(strict, side, a[0].price, a[i].price));
            }
        }
        let rest = merged(side, a, rest_b, (cap - 1) as nat);
        lemma_merged_rel(strict, side, a, rest_b, (cap - 1) as nat);
        lemma_merged_ahead(strict, side, a, rest_b, (cap - 1) as nat, head);
        let all = merged(side, a, b, cap);
        assert forall|i: int, j: int| 0 <= i < j < all.len() implies rel(
            strict,
            side,
            all[i].price,
            all[j].price,
        ) by {
            assert(all[j] == rest[j - 1]);
            if i > 0 {
                assert(all[i] == rest[i - 1]);
            }
        }
    }
}

/// The merge holds every level of both inputs where they are fewer than
/// `cap`, and `cap` orders otherwise.
pub proof fn lemma_merged_len(side: Side, a: Seq<PriceLevel>, b: Seq<PriceLevel>, cap: nat)
    ensures
        merged(side, a, b, cap).len() == if a.len() + b.len() < cap {
            a.len() + b.len()
        } else {
            cap
        },
    decreases cap,
{
    if cap == 0 || (a.len() == 0 && b.len() == 0) {
    } else if takes_first(side, a, b) {
        lemma_merged_len(side, a.drop_first(), b, (cap - 1) as nat);
    } else {
        lemma_merged_len(side, a, b.drop_first(), (cap - 1) as nat);
    }
}

/// Where each input comes best first, so does the merge.
pub proof fn lemma_merged_ranked(side: Side, a: Seq<PriceLevel>, b: Seq<PriceLevel>, cap: nat)
    requires
        ranked(side, a),
        ranked(side, b),
    ensures
        orders_ranked(side, merged(side, a, b, cap)),
{
    lemma_merged_rel(false, side, a, b, cap);
    let all = merged(side, a, b, cap);
    assert forall|i: int, j: int| 0 <= i < j < all.len() implies no_worse(
        side,
        all[i].price,
        all[j].price,
    ) by {
        assert(rel(false, side, all[i].price, all[j].price));
    }
}

/// Where each input is strictly ranked and the two venues share no price,
/// the merge is strictly ranked: bids strictly descending, asks strictly
/// ascending.
pub proof fn lemma_merged_strictly_ranked(
    side: Side,
    a: Seq<PriceLevel>,
    b: Seq<PriceLevel>,
    cap: nat,
)
    requires
        strictly_ranked(side, a),
        strictly_ranked(side, b),
        disjoint_prices(a, b),
    ensures
        orders_strictly_ranked(side, merged(side, a, b, cap)),
{
    lemma_merged_rel(true, side, a, b, cap);
    let all = merged(side, a, b, cap);
    assert forall|i: int, j: int| 0 <= i < j < all.len() implies better(
        side,
        all[i].price,
        all[j].price,
    ) by {
        assert(rel(true, side, all[i].price, all[j].price));
    }
}

/// Every merged order of the first venue is one of that venue's levels.
proof fn lemma_first_venue_source(
    side: Side,
    a: Seq<PriceLevel>,
    b: Seq<PriceLevel>,
    cap: nat,
    n: int,
)
    requires
        0 <= n < merged(side, a, b, cap).len(),
        merged(side, a, b, cap)[n].exchange == Exchange::Bitstamp,
    ensures
        exists|k: int| 0 <= k < a.len() && merged(side, a, b, cap)[n].price == (#[trigger] a[k]).price,
    decreases cap,
{
    if cap == 0 || (a.len() == 0 && b.len() == 0) {
    } else if takes_first(side, a, b) {
        if n == 0 {
            assert(merged(side, a, b, cap)[n].price == a[0].price);
        } else {
            let rest_a = a.drop_first();
            let rest = merged(side, rest_a, b, (cap - 1) as nat);
            assert(merged(side, a, b, cap)[n] == rest[n - 1]);
            lemma_first_venue_source(side, rest_a, b, (cap - 1) as nat, n - 1);
            let k = choose|k: int| 0 <= k < rest_a.len() && rest[n - 1].price == (
            #[trigger] rest_a[k]).price;
            assert(rest_a[k] == a[k + 1]);
        }
    } else {
        let rest = merged(side, a, b.drop_first(), (cap - 1) as nat);
        if n > 0 {
            assert(merged(side, a, b, cap)[n] == rest[n - 1]);
            lemma_first_venue_source(side, a, b.drop_first(), (cap - 1) as nat, n - 1);
        }
    }
}

/// Of two merged orders with one price, the second venue's never stands
/// before the first venue's: ties go to the venue listed first.
pub proof fn lemma_ties_favour_first(
    side: Side,
    a: Seq<PriceLevel>,
    b: Seq<PriceLevel>,
    cap: nat,
    m: int,
    n: int,
)
    requires
        ranked(side, a),
        ranked(side, b),
        0 <= m < n < merged(side, a, b, cap).len(),
        merged(side, a, b, cap)[m].price == merged(side, a, b, cap)[n].price,
    ensures
        !(merged(side, a, b, cap)[m].exchange == Exchange::Binance && merged(
            side,
            a,
            b,
            cap,
        )[n].exchange == Exchange::Bitstamp),
    decreases cap,
{
    let all = merged(side, a, b, cap);
    if cap == 0 || (a.len() == 0 && b.len() == 0) {
    } else if takes_first(side, a, b) {
        let rest_a = a.drop_first();
        let rest = merged(side, rest_a, b, (cap - 1) as nat);
        assert(all[n] == rest[n - 1]);
        if m > 0 {
            assert(all[m] == rest[m - 1]);
            assert forall|i: int, j: int| 0 <= i < j < rest_a.len() implies no_worse(
                side,
                rest_a[i].price,
                rest_a[j].price,
            ) by {
                assert(rest_a[i] == a[i + 1] && rest_a[j] == a[j + 1]);
            }
            lemma_ties_favour_first(side, rest_a, b, (cap - 1) as nat, m - 1, n - 1);
        }
    } else {
        let rest_b = b.drop_first();
        let rest = merged(side, a, rest_b, (cap - 1) as nat);
        assert(all[n] == rest[n - 1]);
        if m > 0 {
            assert(all[m] == rest[m - 1]);
            assert forall|i: int, j: int| 0 <= i < j < rest_b.len() implies no_worse(
                side,
                rest_b[i].price,
                rest_b[j].price,
            ) by {
                assert(rest_b[i] == b[i + 1] && rest_b[j] == b[j + 1]);
            }
            lemma_ties_favour_first(side, a, rest_b, (cap - 1) as nat, m - 1, n - 1);
        } else if rest[n - 1].exchange == Exchange::Bitstamp {
            lemma_first_venue_source(side, a, rest_b, (cap - 1) as nat, n - 1);
            let k = choose|k: int| 0 <= k < a.len() && rest[n - 1].price == (#[trigger] a[k]).price;
            assert(better(side, b[0].price, a[0].price));
            if k > 0 {
                assert(no_worse(side, a[0].price, a[k].price));
            }
        }
    }
}

/// Where both inputs together hold no more than `cap` levels, each of them
/// is in the merge, tagged with its venue: nothing is left out.
#[verifier::rlimit(40)]
pub proof fn lemma_merged_holds_all(side: Side, a: Seq<PriceLevel>, b: Seq<PriceLevel>, cap: nat)
    requires
        a.len() + b.len() <= cap,
    ensures
        merged(side, a, b, cap).len() == a.len() + b.len(),
        forall|k: int|
            0 <= k < a.len() ==> merged(side, a, b, cap).contains(
                tagged(Exchange::Bitstamp, #[trigger] a[k]),
            ),
        forall|k: int|
            0 <= k < b.len() ==> merged(side, a, b, cap).contains(
                tagged(Exchange::Binance, #[trigger] b[k]),
            ),
    decreases cap,
{
    let all = merged(side, a, b, cap);
    lemma_merged_len(side, a, b, cap);
    if cap == 0 || (a.len() == 0 && b.len() == 0) {
    } else if takes_first(side, a, b) {
        let rest_a = a.drop_first();
        let rest = merged(side, rest_a, b, (cap - 1) as nat);
        lemma_merged_holds_all(side, rest_a, b, (cap - 1) as nat);
        assert forall|k: int| 0 <= k < a.len() implies all.contains(
            tagged(Exchange::Bitstamp, #[trigger] a[k]),
        ) by {
            if k == 0 {
                assert(all[0] == tagged(Exchange::Bitstamp, a[0]));
            } else {
                assert(rest_a[k - 1] == a[k]);
                let at = choose|i: int|
                    0 <= i < rest.len() && rest[i] == tagged(Exchange::Bitstamp, rest_a[k - 1]);
                assert(all[at + 1] == rest[at]);
            }
        }
        assert forall|k: int| 0 <= k < b.len() implies all.contains(
            tagged(Exchange::Binance, #[trigger] b[k]),
        ) by {
            let at = choose|i: int| 0 <= i < rest.len() && rest[i] == tagged(Exchange::Binance, b[k]);
            assert(all[at + 1] == rest[at]);
        }
    } else {
        let rest_b = b.drop_first();
        let rest = merged(side, a, rest_b, (cap - 1) as nat);
        lemma_merged_holds_all(side, a, rest_b, (cap - 1) as nat);
        assert forall|k: int| 0 <= k < b.len() implies all.contains(
            tagged(Exchange::Binance, #[trigger] b[k]),
        ) by {
            if k == 0 {
                assert(all[0] == tagged(Exchange::Binance, b[0]));
            } else {
                assert(rest_b[k - 1] == b[k]);
                let at = choose|i: int|
                    0 <= i < rest.len() && rest[i] == tagged(Exchange::Binance, rest_b[k - 1]);
                assert(all[at + 1] == rest[at]);
            }
        }
        assert forall|k: int| 0 <= k < a.len() implies all.contains(
            tagged(Exchange::Bitstamp, #[trigger] a[k]),
        ) by {
            let at = choose|i: int| 0 <= i < rest.len() && rest[i] == tagged(Exchange::Bitstamp, a[k]);
            assert(all[at + 1] == rest[at]);
        }
    }
}

/// How many levels of the first venue and how many of the second the merge
/// takes up.
pub open spec fn taken(side: Side, a: Seq<PriceLevel>, b: Seq<PriceLevel>, cap: nat) -> (nat, nat)
    decreases cap,
{
    if cap == 0 || (a.len() == 0 && b.len() == 0) {
        (0, 0)
    } else if takes_first(side, a, b) {
        let rest = taken(side, a.drop_first(), b, (cap - 1) as nat);
        (rest.0 + 1, rest.1)
    } else {
        let rest = taken(side, a, b.drop_first(), (cap - 1) as nat);
        (rest.0, rest.1 + 1)
    }
}

/// The merge is made of the levels that it takes up and of no others: it is
/// the merge of those leading levels of each venue, all of them.
pub proof fn lemma_merged_of_taken(side: Side, a: Seq<PriceLevel>, b: Seq<PriceLevel>, cap: nat)
    ensures
        taken(side, a, b, cap).0 <= a.len(),
        taken(side, a, b, cap).1 <= b.len(),
        taken(side, a, b, cap).0 + taken(side, a, b, cap).1 == merged(side, a, b, cap).len(),
        merged(side, a, b, cap).len() <= cap,
        merged(side, a, b, cap) == merged(
            side,
            a.take(taken(side, a, b, cap).0 as int),
            b.take(taken(side, a, b, cap).1 as int),
            cap,
        ),
    decreases cap,
{
    let i = taken(side, a, b, cap).0 as int;
    let j = taken(side, a, b, cap).1 as int;
    if cap == 0 || (a.len() == 0 && b.len() == 0) {
        assert(a.take(0).len() == 0 && b.take(0).len() == 0);
    } else if takes_first(side, a, b) {
        let rest_a = a.drop_first();
        lemma_merged_of_taken(side, rest_a, b, (cap - 1) as nat);
        assert(a.take(i).drop_first() =~= rest_a.take(i - 1));
        assert(a.take(i)[0] == a[0]);
        if j > 0 {
            assert(b.take(j)[0] == b[0]);
        }
        assert(takes_first(side, a.take(i), b.take(j)));
    } else {
        let rest_b = b.drop_first();
        lemma_merged_of_taken(side, a, rest_b, (cap - 1) as nat);
        assert(b.take(j).drop_first() =~= rest_b.take(j - 1));
        assert(b.take(j)[0] == b[0]);
        if i > 0 {
            assert(a.take(i)[0] == a[0]);
        }
        assert(!takes_first(side, a.take(i), b.take(j)));
    }
}

/// Each level that the merge takes up has its price somewhere in the merge.
proof fn lemma_taken_prices_present(side: Side, a: Seq<PriceLevel>, b: Seq<PriceLevel>, cap: nat)
    ensures
        forall|k: int|
            0 <= k < taken(side, a, b, cap).0 ==> exists|n: int|
                0 <= n < merged(side, a, b, cap).len() && (#[trigger] merged(
                    side,
                    a,
                    b,
                    cap,
                )[n]).price == (#[trigger] a[k]).price,
        forall|k: int|
            0 <= k < taken(side, a, b, cap).1 ==> exists|n: int|
                0 <= n < merged(side, a, b, cap).len() && (#[trigger] merged(
                    side,
                    a,
                    b,
                    cap,
                )[n]).price == (#[trigger] b[k]).price,
{
    let i = taken(side, a, b, cap).0 as int;
    let j = taken(side, a, b, cap).1 as int;
    let all = merged(side, a, b, cap);
    lemma_merged_of_taken(side, a, b, cap);
    lemma_merged_holds_all(side, a.take(i), b.take(j), cap);
    assert forall|k: int| 0 <= k < i implies exists|n: int|
        0 <= n < all.len() && (#[trigger] all[n]).price == (#[trigger] a[k]).price by {
        assert(a.take(i)[k] == a[k]);
        let o = tagged(Exchange::Bitstamp, a.take(i)[k]);
        assert(all.contains(o));
        let n = choose|n: int| 0 <= n < all.len() && all[n] == o;
        assert(all[n].price == a[k].price);
    }
    assert forall|k: int| 0 <= k < j implies exists|n: int|
        0 <= n < all.len() && (#[trigger] all[n]).price == (#[trigger] b[k]).price by {
        assert(b.take(j)[k] == b[k]);
        let o = tagged(Exchange::Binance, b.take(j)[k]);
        assert(all.contains(o));
        let n = choose|n: int| 0 <= n < all.len() && all[n] == o;
        assert(all[n].price == b[k].price);
    }
}

/// A strictly ranked merge took up strictly ranked levels without a shared
/// price.
#[verifier::rlimit(40)]
proof fn lemma_strict_merge_needs_strict_inputs(
    side: Side,
    a: Seq<PriceLevel>,
    b: Seq<PriceLevel>,
    cap: nat,
)
    requires
        orders_strictly_ranked(side, merged(side, a, b, cap)),
    ensures
        strictly_ranked(side, a.take(taken(side, a, b, cap).0 as int)),
        strictly_ranked(side, b.take(taken(side, a, b, cap).1 as int)),
        disjoint_prices(
            a.take(taken(side, a, b, cap).0 as int),
            b.take(taken(side, a, b, cap).1 as int),
        ),
    decreases cap,
{
    let i = taken(side, a, b, cap).0 as int;
    let j = taken(side, a, b, cap).1 as int;
    let all = merged(side, a, b, cap);
    lemma_merged_of_taken(side, a, b, cap);
    if cap == 0 || (a.len() == 0 && b.len() == 0) {
    } else if takes_first(side, a, b) {
        let rest_a = a.drop_first();
        let rest = merged(side, rest_a, b, (cap - 1) as nat);
        assert forall|m: int, n: int| 0 <= m < n < rest.len() implies better(
            side,
            rest[m].price,
            rest[n].price,
        ) by {
            assert(all[m + 1] == rest[m] && all[n + 1] == rest[n]);
        }
        lemma_strict_merge_needs_strict_inputs(side, rest_a, b, (cap - 1) as nat);
        lemma_taken_prices_present(side, rest_a, b, (cap - 1) as nat);
        lemma_merged_of_taken(side, rest_a, b, (cap - 1) as nat);
        let ta = a.take(i);
        let tb = b.take(j);
        let tr = rest_a.take(i - 1);
        assert forall|x: int, y: int| 0 <= x < y < ta.len() implies better(
            side,
            ta[x].price,
            ta[y].price,
        ) by {
            assert(ta[y] == rest_a[y - 1]);
            if x == 0 {
                let n = choose|n: int|
                    0 <= n < rest.len() && (#[trigger] rest[n]).price == rest_a[y - 1].price;
                assert(all[n + 1] == rest[n]);
                assert(better(side, all[0].price, all[n + 1].price));
            } else {
                assert(ta[x] == tr[x - 1] && ta[y] == tr[y - 1]);
            }
        }
        assert forall|x: int, y: int| 0 <= x < ta.len() && 0 <= y < tb.len() implies ta[x].price
            != tb[y].price by {
            if x == 0 {
                let n = choose|n: int| 0 <= n < rest.len() && (#[trigger] rest[n]).price == b[y].price;
                assert(all[n + 1] == rest[n]);
                assert(better(side, all[0].price, all[n + 1].price));
            } else {
                assert(ta[x] == tr[x - 1]);
            }
        }
    } else {
        let rest_b = b.drop_first();
        let rest = merged(side, a, rest_b, (cap - 1) as nat);
        assert forall|m: int, n: int| 0 <= m < n < rest.len() implies better(
            side,
            rest[m].price,
            rest[n].price,
        ) by {
            assert(all[m + 1] == rest[m] && all[n + 1] == rest[n]);
        }
        lemma_strict_merge_needs_strict_inputs(side, a, rest_b, (cap - 1) as nat);
        lemma_taken_prices_present(side, a, rest_b, (cap - 1) as nat);
        lemma_merged_of_taken(side, a, rest_b, (cap - 1) as nat);
        let ta = a.take(i);
        let tb = b.take(j);
        let tr = rest_b.take(j - 1);
        assert forall|x: int, y: int| 0 <= x < y < tb.len() implies better(
            side,
            tb[x].price,
            tb[y].price,
        ) by {
            assert(tb[y] == rest_b[y - 1]);
            if x == 0 {
                let n = choose|n: int|
                    0 <= n < rest.len() && (#[trigger] rest[n]).price == rest_b[y - 1].price;
                assert(all[n + 1] == rest[n]);
                assert(better(side, all[0].price, all[n + 1].price));
            } else {
                assert(tb[x] == tr[x - 1] && tb[y] == tr[y - 1]);
            }
        }
        assert forall|x: int, y: int| 0 <= x < ta.len() && 0 <= y < tb.len() implies ta[x].price
            != tb[y].price by {
            if y == 0 {
                let n = choose|n: int| 0 <= n < rest.len() && (#[trigger] rest[n]).price == a[x].price;
                assert(all[n + 1] == rest[n]);
                assert(better(side, all[0].price, all[n + 1].price));
            } else {
                assert(tb[y] == tr[y - 1]);
            }
        }
    }
}

/// The merge is strictly ranked, bids strictly descending and asks strictly
/// ascending, exactly where the levels that it takes up are strictly ranked
/// at each venue and no price among them is at both venues.
pub proof fn lemma_strictly_ranked_iff(side: Side, a: Seq<PriceLevel>, b: Seq<PriceLevel>, cap: nat)
    ensures
        orders_strictly_ranked(side, merged(side, a, b, cap)) <==> {
            &&& strictly_ranked(side, a.take(taken(side, a, b, cap).0 as int))
            &&& strictly_ranked(side, b.take(taken(side, a, b, cap).1 as int))
            &&& disjoint_prices(
                a.take(taken(side, a, b, cap).0 as int),
                b.take(taken(side, a, b, cap).1 as int),
            )
        },
{
    let ta = a.take(taken(side, a, b, cap).0 as int);
    let tb = b.take(taken(side, a, b, cap).1 as int);
    lemma_merged_of_taken(side, a, b, cap);
    if orders_strictly_ranked(side, merged(side, a, b, cap)) {
        lemma_strict_merge_needs_strict_inputs(side, a, b, cap);
    }
    if strictly_ranked(side, ta) && strictly_ranked(side, tb) && disjoint_prices(ta, tb) {
        lemma_merged_strictly_ranked(side, ta, tb, cap);
    }
}

} // verus!
