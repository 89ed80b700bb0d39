//! The ledger records: orders, trades, stock sides and user accounts.

use crate::keyed::{
    keyed, last_of_key, lemma_keyed_absent, lemma_keyed_at, lemma_keyed_push,
    lemma_keyed_update,
};
use vstd::prelude::*;

verus! {

/// One of the two complementary stocks of a market.
#[derive(Clone, Copy, Debug, PartialEq, Eq, Structural)]
pub enum StockType {
    StockA,
    StockB,
}

/// The side of an order.
#[derive(Clone, Copy, Debug, PartialEq, Eq, Structural)]
pub enum Ordertype {
    Buy,
    Sell,
}

/// How a market was resolved.
#[derive(Clone, Copy, Debug, PartialEq, Eq, Structural)]
pub enum WinningOutcome {
    OutcomeA,
    OutcomeB,
    /// A draw or an invalid market: both stocks pay half.
    Neither,
}

/// An order; `quantity` is what remains of it.
#[derive(Debug)]
pub struct Order {
    pub price: u64,
    pub quantity: u64,
    pub stock_type: StockType,
    pub username: String,
    /// Milliseconds since the Unix epoch when the order was placed.
    pub timestamp: i64,
    pub ordertype: Ordertype,
    pub market_id: String,
}

/// One match: `from` sold `trade_qty` units to `to` at `trade_price` each.
#[derive(Debug, PartialEq, Eq)]
pub struct Trade {
    pub from: String,
    pub to: String,
    pub trade_qty: u64,
    pub trade_price: u64,
    pub stock_type: StockType,
}

/// What a user holds of the two stocks of one market.
#[derive(Clone, Copy, Debug, PartialEq, Eq, Structural)]
pub struct UserHoldings {
    pub stock_a: u64,
    pub stock_b: u64,
}

/// Why an operation was refused.
#[derive(Clone, Copy, Debug, PartialEq, Eq, Structural)]
pub enum ExchangeError {
    UserNotFound,
    UsernameTaken,
    InvalidCredentials,
    MarketNotFound,
    MarketAlreadyExists,
    MarketSettled,
    InsufficientFunds { required: u64, available: u64 },
    InsufficientStock { required: u64, available: u64 },
    InsufficientHoldings { required: u64, available: u64 },
}

/// A user account: a cash balance and, per market identifier, stock holdings.
#[derive(Debug)]
pub struct User {
    pub username: String,
    /// The hashed password credential.
    pub password: String,
    pub balance: u64,
    pub holdings: Vec<(String, UserHoldings)>,
}

impl Order {
    /// A field-by-field copy.
    pub fn copy(&self) -> (r: Order)
        ensures
            r == *self,
    {
        Order {
            price: self.price,
            quantity: self.quantity,
            stock_type: self.stock_type,
            username: self.username.clone(),
            timestamp: self.timestamp,
            ordertype: self.ordertype,
            market_id: self.market_id.clone(),
        }
    }
}

impl Trade {
    /// A field-by-field copy.
    pub fn copy(&self) -> (r: Trade)
        ensures
            r == *self,
    {
        Trade {
            from: self.from.clone(),
            to: self.to.clone(),
            trade_qty: self.trade_qty,
            trade_price: self.trade_price,
            stock_type: self.stock_type,
        }
    }
}

/// The order `o` with `q` units left.
pub open spec fn with_quantity(o: Order, q: u64) -> Order {
    Order {
        price: o.price,
        quantity: q,
        stock_type: o.stock_type,
        username: o.username,
        timestamp: o.timestamp,
        ordertype: o.ordertype,
        market_id: o.market_id,
    }
}

pub open spec fn no_holdings() -> UserHoldings {
    UserHoldings { stock_a: 0, stock_b: 0 }
}

/// The quantity of stock `s` in `h`.
pub open spec fn stock_of(h: UserHoldings, s: StockType) -> u64 {
    match s {
        StockType::StockA => h.stock_a,
        StockType::StockB => h.stock_b,
    }
}

/// `h` with the quantity of stock `s` set to `q`.
pub open spec fn set_stock(h: UserHoldings, s: StockType, q: u64) -> UserHoldings {
    match s {
        StockType::StockA => UserHoldings { stock_a: q, stock_b: h.stock_b },
        StockType::StockB => UserHoldings { stock_a: h.stock_a, stock_b: q },
    }
}

/// The association list of holdings with its keys viewed as character sequences.
pub open spec fn holdings_pairs(hs: Seq<(String, UserHoldings)>) -> Seq<(Seq<char>, UserHoldings)> {
    hs.map_values(|p: (String, UserHoldings)| (p.0@, p.1))
}

/// A sum that stops at `u64::MAX`.
pub open spec fn capped_sum(a: u64, b: int) -> u64 {
    if a + b > u64::MAX {
        u64::MAX
    } else {
        (a + b) as u64
    }
}

/// `a + b`, stopping at `u64::MAX`.
pub fn capped_add(a: u64, b: u64) -> (r: u64)
    ensures
        r == capped_sum(a, b as int),
{
    if a > u64::MAX - b {
        u64::MAX
    } else {
        a + b
    }
}

impl User {
    /// The holdings of this user, by market identifier.
    pub open spec fn holdings_map(&self) -> Map<Seq<char>, UserHoldings> {
        keyed(holdings_pairs(self.holdings@))
    }

    /// The holdings of this user in market `m`; zero where none were recorded.
    pub open spec fn holding(&self, m: Seq<char>) -> UserHoldings {
        holding_in(self.holdings_map(), m)
    }

    pub open spec fn account(&self) -> Account {
        Account { password: self.password@, balance: self.balance, holdings: self.holdings_map() }
    }

    /// The holdings of this user in market `m`.
    pub fn holding_of(&self, m: &String) -> (h: UserHoldings)
        ensures
            h == self.holding(m@),
    {
        let ghost pairs = holdings_pairs(self.holdings@);
        let mut k: usize = self.holdings.len();
        while k > 0
            invariant
                k <= self.holdings.len(),
                pairs == holdings_pairs(self.holdings@),
                forall|j: int| k <= j < self.holdings.len() ==> #[trigger] pairs[j].0 != m@,
            decreases k,
        {
            if self.holdings[k - 1].0 == *m {
                proof {
                    lemma_keyed_at(pairs, k - 1);
                }
                return self.holdings[k - 1].1;
            }
            k = k - 1;
        }
        proof {
            lemma_keyed_absent(pairs, m@);
        }
        UserHoldings { stock_a: 0, stock_b: 0 }
    }

    /// The index of this user's holdings entry for market `m`, added with zero
    /// quantities where none was recorded.
    pub fn holding_slot(&mut self, m: &String) -> (i: usize)
        ensures
            final(self).username == old(self).username,
            final(self).password == old(self).password,
            final(self).balance == old(self).balance,
            final(self).holdings_map() == old(self).holdings_map().insert(m@, old(self).holding(m@)),
            last_of_key(holdings_pairs(final(self).holdings@), i as int),
            final(self).holdings@[i as int].0@ == m@,
            final(self).holdings@[i as int].1 == old(self).holding(m@),
    {
        let ghost pairs = holdings_pairs(self.holdings@);
        let mut k: usize = self.holdings.len();
        while k > 0
            invariant
                k <= self.holdings.len(),
                pairs == holdings_pairs(self.holdings@),
                forall|j: int| k <= j < self.holdings.len() ==> #[trigger] pairs[j].0 != m@,
            decreases k,
        {
            if self.holdings[k - 1].0 == *m {
                proof {
                    lemma_keyed_at(pairs, k - 1);
                    assert(self.holdings_map() == self.holdings_map().insert(m@, self.holding(m@)));
                }
                return k - 1;
            }
            k = k - 1;
        }
        proof {
            lemma_keyed_absent(pairs, m@);
        }
        self.holdings.push((m.clone(), UserHoldings { stock_a: 0, stock_b: 0 }));
        proof {
            assert(holdings_pairs(self.holdings@) =~= pairs.push((m@, no_holdings())));
            lemma_keyed_push(pairs, m@, no_holdings());
        }
        self.holdings.len() - 1
    }
}

impl User {
    /// Adds `p` x `q` to the balance, stopping at `u64::MAX`.
    pub fn credit_balance(&mut self, p: u64, q: u64)
        ensures
            final(self).username == old(self).username,
            final(self).account() == with_balance(old(self).account(), capped_sum(old(self).balance, p * q)),
    {
        assert((p as u128) * (q as u128) <= 0xffff_ffff_ffff_ffffu128 * 0xffff_ffff_ffff_ffffu128)
            by (nonlinear_arith)
            requires
                p <= 0xffff_ffff_ffff_ffffu64,
                q <= 0xffff_ffff_ffff_ffffu64,
        ;
        let total: u128 = (self.balance as u128) + (p as u128) * (q as u128);
        self.balance = if total > 0xffff_ffff_ffff_ffffu128 {
            0xffff_ffff_ffff_ffffu64
        } else {
            total as u64
        };
    }

    /// Adds `q` units of stock `s` of market `m`, stopping at `u64::MAX`.
    pub fn credit_stock(&mut self, m: &String, s: StockType, q: u64)
        ensures
            final(self).username == old(self).username,
            final(self).account() == with_stock(
                old(self).account(),
                m@,
                s,
                capped_sum(held(old(self).account(), m@, s), q as int),
            ),
    {
        let ghost h = self.holding(m@);
        let ghost mid = self.holdings_map();
        let i = self.holding_slot(m);
        let mut e = self.holdings[i].1;
        match s {
            StockType::StockA => e.stock_a = capped_add(e.stock_a, q),
            StockType::StockB => e.stock_b = capped_add(e.stock_b, q),
        }
        let ghost pairs = holdings_pairs(self.holdings@);
        self.holdings[i].1 = e;
        proof {
            lemma_keyed_update(pairs, i as int, e);
            assert(holdings_pairs(self.holdings@) =~= pairs.update(i as int, (pairs[i as int].0, e)));
            assert(e == set_stock(h, s, capped_sum(stock_of(h, s), q as int)));
            assert(self.holdings_map() =~= mid.insert(m@, e));
        }
    }
}

/// What the engine keeps of a user besides the name: the credential, the balance
/// and the holdings by market identifier.
pub struct Account {
    pub password: Seq<char>,
    pub balance: u64,
    pub holdings: Map<Seq<char>, UserHoldings>,
}

/// The holdings in market `m`; zero where none were recorded.
pub open spec fn holding_in(hs: Map<Seq<char>, UserHoldings>, m: Seq<char>) -> UserHoldings {
    if hs.contains_key(m) {
        hs[m]
    } else {
        no_holdings()
    }
}

/// The quantity of stock `s` of market `m` that `a` holds.
pub open spec fn held(a: Account, m: Seq<char>, s: StockType) -> u64 {
    stock_of(holding_in(a.holdings, m), s)
}

pub open spec fn with_balance(a: Account, b: u64) -> Account {
    Account { password: a.password, balance: b, holdings: a.holdings }
}

/// `a` holding `q` units of stock `s` of market `m`.
pub open spec fn with_stock(a: Account, m: Seq<char>, s: StockType, q: u64) -> Account {
    Account {
        password: a.password,
        balance: a.balance,
        holdings: a.holdings.insert(m, set_stock(holding_in(a.holdings, m), s, q)),
    }
}

} // verus!
