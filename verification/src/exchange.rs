use vstd::prelude::*;

verus! {

/// Number of exchanges whose levels the book aggregates.
pub const EXCHANGE_COUNT: u32 = 2;

/// The exchanges a level can come from.
#[derive(Clone, Copy, Debug, PartialEq, Eq, Structural, Hash)]
pub enum ExchangeType {
    Binance,
    Bitstamp,
}

impl ExchangeType {
    /// Position of the exchange in the list of all exchanges.
    pub open spec fn spec_index(self) -> u32 {
        match self {
            ExchangeType::Binance => 0,
            ExchangeType::Bitstamp => 1,
        }
    }

    /// The exchange at a given position of the list of all exchanges.
    pub open spec fn spec_from_index(i: u32) -> ExchangeType {
        if i == 0 {
            ExchangeType::Binance
        } else {
            ExchangeType::Bitstamp
        }
    }

    pub fn index(self) -> (i: u32)
        ensures
            i == self.spec_index(),
            i < EXCHANGE_COUNT,
    {
        match self {
            ExchangeType::Binance => 0,
            ExchangeType::Bitstamp => 1,
        }
    }

    pub fn from_index(i: u32) -> (e: ExchangeType)
        requires
            i < EXCHANGE_COUNT,
        ensures
            e == ExchangeType::spec_from_index(i),
            e.spec_index() == i,
    {
        if i == 0 {
            ExchangeType::Binance
        } else {
            ExchangeType::Bitstamp
        }
    }
}

/// Every exchange, in index order.
pub fn all_exchanges() -> (v: Vec<ExchangeType>)
    ensures
        v@.len() == EXCHANGE_COUNT,
        forall|i: int| 0 <= i < v@.len() ==> #[trigger] v@[i].spec_index() == i,
{
    let mut v: Vec<ExchangeType> = Vec::new();
    v.push(ExchangeType::Binance);
    v.push(ExchangeType::Bitstamp);
    v
}

/// Errors the order book reports.
#[derive(Clone, Copy, Debug, PartialEq, Eq, Structural)]
pub enum OrderbookError {
    /// An update arrived without naming its exchange.
    MissingExchange,
}

/// A batch of level changes from one exchange, in storage units: each level
/// is a (price, quantity) pair, and a quantity of zero removes the level.
#[derive(Clone, Debug)]
pub struct Update {
    pub exchange: Option<ExchangeType>,
    pub last_update_id: u64,
    pub bids: Vec<(u32, u64)>,
    pub asks: Vec<(u32, u64)>,
}

} // verus!
