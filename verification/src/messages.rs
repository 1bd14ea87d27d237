//! The venues' depth messages and their decoding into canonical levels.

use vstd::prelude::*;
use crate::book::{DepthSnapshot, PriceLevel};
use crate::decimal::{decimal_of, parse_decimal};

verus! {

/// One level as a venue sends it: price and quantity as decimal text.
#[derive(Debug)]
pub struct Priceinfo {
    pub price: String,
    pub qty: String,
}

/// Both sides of a depth message.
#[derive(Debug)]
pub struct Data {
    pub bids: Vec<Priceinfo>,
    pub asks: Vec<Priceinfo>,
}

/// A depth message of the first venue: the levels lie under `data`.
#[derive(Debug)]
pub struct BitstampMessage {
    pub data: Data,
}

/// A depth message of the second venue: the levels lie at the top.
#[derive(Debug)]
pub struct BinanceMessage {
    pub bids: Vec<Priceinfo>,
    pub asks: Vec<Priceinfo>,
}

/// Why a message was not decoded.
#[derive(Clone, Copy, Debug, PartialEq, Eq, Structural)]
pub enum DecodeError {
    /// A price is no decimal numeral.
    InvalidPrice,
    /// A quantity is no decimal numeral.
    InvalidQuantity,
    /// The frame holds no depth message of the venue's schema. Decoding the
    /// message structs never gives this: it is for whoever reads the frame.
    UnexpectedBody,
}

/// The canonical level that `p` writes; a bad price is reported before a bad
/// quantity.
pub open spec fn level_of(p: Priceinfo) -> Result<PriceLevel, DecodeError> {
    match decimal_of(p.price@) {
        None => Err(DecodeError::InvalidPrice),
        Some(price) => match decimal_of(p.qty@) {
            None => Err(DecodeError::InvalidQuantity),
            Some(quantity) => Ok(PriceLevel { price, quantity }),
        },
    }
}

/// The canonical levels that `raw` writes, in the same order, or the error of
/// the first entry that has one.
pub open spec fn levels_of(raw: Seq<Priceinfo>) -> Result<Seq<PriceLevel>, DecodeError>
    decreases raw.len(),
{
    if raw.len() == 0 {
        Ok(Seq::empty())
    } else {
        match levels_of(raw.drop_last()) {
            Err(e) => Err(e),
            Ok(init) => match level_of(raw.last()) {
                Err(e) => Err(e),
                Ok(l) => Ok(init.push(l)),
            },
        }
    }
}

/// The two sides that a message writes; an error among the bids is reported
/// before one among the asks.
pub open spec fn sides_of(bids: Seq<Priceinfo>, asks: Seq<Priceinfo>) -> Result<
    (Seq<PriceLevel>, Seq<PriceLevel>),
    DecodeError,
> {
    match levels_of(bids) {
        Err(e) => Err(e),
        Ok(b) => match levels_of(asks) {
            Err(e) => Err(e),
            Ok(a) => Ok((b, a)),
        },
    }
}

/// `r` is what decoding the two sides gives.
pub open spec fn decodes_to(
    bids: Seq<Priceinfo>,
    asks: Seq<Priceinfo>,
    r: Result<DepthSnapshot, DecodeError>,
) -> bool {
    match r {
        Ok(snapshot) => sides_of(bids, asks) == Ok::<_, DecodeError>(
            (snapshot.bids@, snapshot.asks@),
        ),
        Err(e) => sides_of(bids, asks) == Err::<(Seq<PriceLevel>, Seq<PriceLevel>), _>(e),
    }
}

/// An error in a prefix of the entries is the error of the whole.
proof fn lemma_error_persists(raw: Seq<Priceinfo>, k: int, e: DecodeError)
    requires
        0 <= k <= raw.len(),
        levels_of(raw.subrange(0, k)) == Err::<Seq<PriceLevel>, _>(e),
    ensures
        levels_of(raw) == Err::<Seq<PriceLevel>, _>(e),
    decreases raw.len() - k,
{
    if k < raw.len() {
        assert(raw.subrange(0, k + 1).drop_last() =~= raw.subrange(0, k));
        lemma_error_persists(raw, k + 1, e);
    } else {
        assert(raw.subrange(0, k) =~= raw);
    }
}

/// Where a side decodes, it decodes entry by entry: as many levels as
/// entries, each the level of the entry at its place. Where it does not, some
/// entry has no level.
pub proof fn lemma_levels_pointwise(raw: Seq<Priceinfo>)
    ensures
        match levels_of(raw) {
            Ok(levels) => levels.len() == raw.len() && forall|i: int|
                0 <= i < raw.len() ==> level_of(#[trigger] raw[i]) == Ok::<_, DecodeError>(levels[i]),
            Err(e) => exists|i: int|
                0 <= i < raw.len() && level_of(#[trigger] raw[i]) == Err::<PriceLevel, _>(e),
        },
    decreases raw.len(),
{
    if raw.len() > 0 {
        let init = raw.drop_last();
        lemma_levels_pointwise(init);
        match levels_of(init) {
            Ok(levels) => {
                assert forall|i: int| 0 <= i < init.len() implies init[i] == raw[i] by {}
                match level_of(raw.last()) {
                    Ok(l) => {
                        let all = levels.push(l);
                        assert forall|i: int| 0 <= i < raw.len() implies level_of(
                            #[trigger] raw[i],
                        ) == Ok::<_, DecodeError>(all[i]) by {
                            if i < init.len() {
                                assert(init[i] == raw[i]);
                            }
                        }
                    },
                    Err(e) => {
                        assert(level_of(raw[raw.len() - 1]) == Err::<PriceLevel, _>(e));
                    },
                }
            },
            Err(e) => {
                let i = choose|i: int|
                    0 <= i < init.len() && level_of(#[trigger] init[i]) == Err::<PriceLevel, _>(e);
                assert(init[i] == raw[i]);
            },
        }
    }
}

/// Decodes one level.
pub fn decode_level(p: &Priceinfo) -> (r: Result<PriceLevel, DecodeError>)
    ensures
        r == level_of(*p),
{
    match parse_decimal(p.price.as_str()) {
        None => Err(DecodeError::InvalidPrice),
        Some(price) => match parse_decimal(p.qty.as_str()) {
            None => Err(DecodeError::InvalidQuantity),
            Some(quantity) => Ok(PriceLevel { price, quantity }),
        },
    }
}

/// Decodes one side of a message, entry by entry.
pub fn decode_levels(raw: &Vec<Priceinfo>) -> (r: Result<Vec<PriceLevel>, DecodeError>)
    ensures
        match r {
            Ok(levels) => levels_of(raw@) == Ok::<_, DecodeError>(levels@),
            Err(e) => levels_of(raw@) == Err::<Seq<PriceLevel>, _>(e),
        },
{
    let mut out: Vec<PriceLevel> = Vec::new();
    let mut i: usize = 0;
    while i < raw.len()
        invariant
            i <= raw.len(),
            levels_of(raw@.subrange(0, i as int)) == Ok::<_, DecodeError>(out@),
        decreases raw.len() - i,
    {
        proof {
            assert(raw@.subrange(0, i + 1).drop_last() =~= raw@.subrange(0, i as int));
        }
        match decode_level(&raw[i]) {
            Err(e) => {
                proof {
                    lemma_error_persists(raw@, i + 1, e);
                }
                return Err(e);
            },
            Ok(level) => {
                out.push(level);
            },
        }
        i += 1;
    }
    proof {
        assert(raw@.subrange(0, i as int) =~= raw@);
    }
    Ok(out)
}

/// Decodes both sides of a message, the bids first.
pub fn decode_sides(bids: &Vec<Priceinfo>, asks: &Vec<Priceinfo>) -> (r: Result<
    DepthSnapshot,
    DecodeError,
>)
    ensures
        decodes_to(bids@, asks@, r),
{
    match decode_levels(bids) {
        Err(e) => Err(e),
        Ok(b) => match decode_levels(asks) {
            Err(e) => Err(e),
            Ok(a) => Ok(DepthSnapshot { bids: b, asks: a }),
        },
    }
}

impl BitstampMessage {
    /// The snapshot that the message carries.
    pub fn decode(&self) -> (r: Result<DepthSnapshot, DecodeError>)
        ensures
            decodes_to(self.data.bids@, self.data.asks@, r),
    {
        decode_sides(&self.data.bids, &self.data.asks)
    }
}

impl BinanceMessage {
    /// The snapshot that the message carries.
    pub fn decode(&self) -> (r: Result<DepthSnapshot, DecodeError>)
        ensures
            decodes_to(self.bids@, self.asks@, r),
    {
        decode_sides(&self.bids, &self.asks)
    }
}

} // verus!
