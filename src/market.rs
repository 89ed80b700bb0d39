//! A market: the two order books of its complementary stocks and its trade
//! history.

use crate::book::{limit_placed, market_executed, OrderBook};
use crate::outside::fresh_market_id;
use crate::types::{ExchangeError, Order, Ordertype, StockType, Trade, User, WinningOutcome};
use vstd::prelude::*;

verus! {

#[derive(Debug)]
pub struct Market {
    pub market_id: String,
    pub created_by: String,
    pub market_name: String,
    pub stock_a: OrderBook,
    pub stock_b: OrderBook,
    /// Every trade made in this market, oldest first.
    pub trades: Vec<Trade>,
    pub winning_outcome: Option<WinningOutcome>,
    /// A settled market takes no new orders.
    pub is_settled: bool,
}

/// The trade history after an order whose result is `r`.
pub open spec fn history_after(h: Seq<Trade>, r: Result<Vec<Trade>, ExchangeError>) -> Seq<Trade> {
    match r {
        Ok(ts) => h + ts@,
        Err(_) => h,
    }
}

/// Appends copies of `ts` to `out`.
fn append_trades(out: &mut Vec<Trade>, ts: &Vec<Trade>)
    ensures
        final(out)@ == old(out)@ + ts@,
{
    let ghost start = out@;
    let mut k: usize = 0;
    while k < ts.len()
        invariant
            k <= ts.len(),
            out@ == start + ts@.subrange(0, k as int),
        decreases ts.len() - k,
    {
        out.push(ts[k].copy());
        k = k + 1;
        assert(out@ =~= start + ts@.subrange(0, k as int));
    }
    assert(ts@.subrange(0, k as int) =~= ts@);
}

impl Market {
    /// The book of stock `s`.
    pub open spec fn book(&self, s: StockType) -> OrderBook {
        match s {
            StockType::StockA => self.stock_a,
            StockType::StockB => self.stock_b,
        }
    }

    pub open spec fn wf(&self) -> bool {
        self.stock_a.wf() && self.stock_b.wf()
    }

    /// A market that differs from `self` only in the book of stock `s`, which is
    /// `b`, and in its trade history, which is `h`.
    pub open spec fn changed_to(&self, other: Market, s: StockType, b: OrderBook, h: Seq<Trade>) -> bool {
        &&& other.market_id == self.market_id
        &&& other.created_by == self.created_by
        &&& other.market_name == self.market_name
        &&& other.winning_outcome == self.winning_outcome
        &&& other.is_settled == self.is_settled
        &&& other.book(s) == b
        &&& other.book(other_stock(s)) == self.book(other_stock(s))
        &&& other.trades@ == h
    }

    /// A new, open market with no orders, under a freshly drawn identifier.
    pub fn initialise_market(market_name: String, username: String) -> (r: Market)
        ensures
            r.market_id@.len() == 21,
            r.created_by == username,
            r.market_name == market_name,
            r.stock_a.buy@.len() == 0 && r.stock_a.sell@.len() == 0,
            r.stock_b.buy@.len() == 0 && r.stock_b.sell@.len() == 0,
            r.wf(),
            r.trades@.len() == 0,
            r.winning_outcome.is_none(),
            !r.is_settled,
    {
        Market::with_id(fresh_market_id(), market_name, username)
    }

    /// A new, open market with no orders, under the identifier `market_id`.
    pub fn with_id(market_id: String, market_name: String, username: String) -> (r: Market)
        ensures
            r.market_id == market_id,
            r.created_by == username,
            r.market_name == market_name,
            r.stock_a.buy@.len() == 0 && r.stock_a.sell@.len() == 0,
            r.stock_b.buy@.len() == 0 && r.stock_b.sell@.len() == 0,
            r.wf(),
            r.trades@.len() == 0,
            r.winning_outcome.is_none(),
            !r.is_settled,
    {
        Market {
            market_id,
            created_by: username,
            market_name,
            stock_a: OrderBook::new(),
            stock_b: OrderBook::new(),
            trades: Vec::new(),
            winning_outcome: None,
            is_settled: false,
        }
    }

    /// Places a limit order in the book of its stock and records its trades.
    pub fn add_limit_order(&mut self, order: Order, user: &mut User) -> (r: Result<
        Vec<Trade>,
        ExchangeError,
    >)
        ensures
            r is Err ==> *final(self) == *old(self) && *final(user) == *old(user),
            old(self).wf() ==> final(self).wf(),
            exists|b: OrderBook|
                {
                    &&& limit_placed(old(self).book(order.stock_type), b, *old(user), *final(user), order, r)
                    &&& old(self).changed_to(
                        *final(self),
                        order.stock_type,
                        b,
                        history_after(old(self).trades@, r),
                    )
                },
    {
        let ghost s = order.stock_type;
        let r = match order.stock_type {
            StockType::StockA => self.stock_a.add_limit_order(order, user),
            StockType::StockB => self.stock_b.add_limit_order(order, user),
        };
        match &r {
            Ok(ts) => append_trades(&mut self.trades, ts),
            Err(_) => {},
        }
        assert(limit_placed(old(self).book(s), self.book(s), *old(user), *user, order, r));
        r
    }

    /// Executes a market order in the book of `stock_type` and records its trades.
    pub fn execute_market_order(
        &mut self,
        username: String,
        ordertype: Ordertype,
        quantity: u64,
        stock_type: StockType,
        user: &mut User,
        market_id: String,
    ) -> (r: Result<Vec<Trade>, ExchangeError>)
        ensures
            r is Err ==> *final(self) == *old(self) && *final(user) == *old(user),
            old(self).wf() ==> final(self).wf(),
            exists|b: OrderBook|
                {
                    &&& market_executed(
                        old(self).book(stock_type),
                        b,
                        *old(user),
                        *final(user),
                        username,
                        ordertype,
                        quantity,
                        market_id@,
                        stock_type,
                        r,
                    )
                    &&& old(self).changed_to(*final(self), stock_type, b, history_after(old(self).trades@, r))
                },
    {
        let ghost u = username;
        let ghost m = market_id@;
        let r = match stock_type {
            StockType::StockA => self.stock_a.execute_market_order(
                username,
                ordertype,
                quantity,
                user,
                market_id,
                stock_type,
            ),
            StockType::StockB => self.stock_b.execute_market_order(
                username,
                ordertype,
                quantity,
                user,
                market_id,
                stock_type,
            ),
        };
        match &r {
            Ok(ts) => append_trades(&mut self.trades, ts),
            Err(_) => {},
        }
        assert(market_executed(
            old(self).book(stock_type),
            self.book(stock_type),
            *old(user),
            *user,
            u,
            ordertype,
            quantity,
            m,
            stock_type,
            r,
        ));
        assert(u == username);
        assert(old(self).changed_to(*self, stock_type, self.book(stock_type), history_after(old(self).trades@, r)));
        r
    }
}

pub open spec fn other_stock(s: StockType) -> StockType {
    match s {
        StockType::StockA => StockType::StockB,
        StockType::StockB => StockType::StockA,
    }
}

} // verus!
