//! The exchange: every user and every market, changed by one operation at a time.

use crate::book::{
    limit_book_after, limit_fill, limit_lock, limit_refusal, market_account_after, market_book_after,
    market_fill, market_refusal, OrderBook,
};
use crate::keyed::{
    keyed, last_of_key, lemma_keyed_absent, lemma_keyed_at, lemma_keyed_push,
    lemma_keyed_update,
};
use crate::market::Market;
use crate::outside::{bcrypt_accepts, fresh_market_id, now_millis, verify_password};
use crate::types::{
    capped_sum, held, holding_in, holdings_pairs, with_balance, with_stock, Account, ExchangeError,
    Order, Ordertype, StockType, Trade, User, UserHoldings,
};
use vstd::prelude::*;

verus! {

/// The balance that every new user starts with.
pub const STARTING_BALANCE: u64 = 5000;

/// A user's balance and holdings, as handed out.
#[derive(Debug)]
pub struct UserDetails {
    pub balance: u64,
    pub holdings: Vec<(String, UserHoldings)>,
}

/// Copies of the two books of a market.
#[derive(Debug)]
pub struct Orderbooks {
    pub stock_a: OrderBook,
    pub stock_b: OrderBook,
}

/// All users and markets. Users are found by name and markets by identifier; where
/// a list held one twice, the later entry would count.
#[derive(Debug)]
pub struct Exchange {
    pub users: Vec<User>,
    pub markets: Vec<Market>,
}

pub open spec fn user_pairs(us: Seq<User>) -> Seq<(Seq<char>, Account)> {
    us.map_values(|u: User| (u.username@, u.account()))
}

pub open spec fn market_pairs(ms: Seq<Market>) -> Seq<(Seq<char>, Market)> {
    ms.map_values(|m: Market| (m.market_id@, m))
}

/// A new market, open and without orders.
pub open spec fn fresh_market(mk: Market, id: Seq<char>, name: Seq<char>, creator: Seq<char>) -> bool {
    &&& mk.market_id@ == id
    &&& mk.market_name@ == name
    &&& mk.created_by@ == creator
    &&& mk.stock_a.buy@.len() == 0 && mk.stock_a.sell@.len() == 0
    &&& mk.stock_b.buy@.len() == 0 && mk.stock_b.sell@.len() == 0
    &&& mk.wf()
    &&& mk.trades@.len() == 0
    &&& mk.winning_outcome.is_none()
    &&& !mk.is_settled
}

/// The account of a user who has just signed up.
pub open spec fn new_account(password: Seq<char>) -> Account {
    Account { password, balance: STARTING_BALANCE, holdings: Map::empty() }
}

/// The account after minting `n` pairs of market `m` from `n` of the balance.
pub open spec fn split_account(a: Account, m: Seq<char>, n: u64) -> Account {
    let h = holding_in(a.holdings, m);
    Account {
        password: a.password,
        balance: (a.balance - n) as u64,
        holdings: a.holdings.insert(
            m,
            UserHoldings { stock_a: capped_sum(h.stock_a, n as int), stock_b: capped_sum(h.stock_b, n as int) },
        ),
    }
}

/// The account after redeeming `n` pairs of market `m` for `n` of the balance.
pub open spec fn merge_account(a: Account, m: Seq<char>, n: u64) -> Account {
    let h = holding_in(a.holdings, m);
    Account {
        password: a.password,
        balance: capped_sum(a.balance, n as int),
        holdings: a.holdings.insert(
            m,
            UserHoldings { stock_a: (h.stock_a - n) as u64, stock_b: (h.stock_b - n) as u64 },
        ),
    }
}

/// The fewer of the two stocks of market `m` that `a` holds.
pub open spec fn pairs_held(a: Account, m: Seq<char>) -> u64 {
    let h = holding_in(a.holdings, m);
    if h.stock_a <= h.stock_b {
        h.stock_a
    } else {
        h.stock_b
    }
}

/// The accounts after one trade of market `m` is settled: the seller is paid
/// price x quantity and the buyer receives the stock. Where `rebate` names the
/// buyer and a limit above the trade's price, the buyer also gets the difference
/// back for each unit. A trade with a party unknown, or, where `skip_self`, with
/// one party on both sides, changes nothing.
pub open spec fn settle_one(
    acc: Map<Seq<char>, Account>,
    t: Trade,
    m: Seq<char>,
    rebate: Option<(Seq<char>, u64)>,
    skip_self: bool,
) -> Map<Seq<char>, Account> {
    let from = t.from@;
    let to = t.to@;
    if !acc.contains_key(from) || !acc.contains_key(to) || (skip_self && from == to) {
        acc
    } else {
        let a1 = acc.insert(
            from,
            with_balance(acc[from], capped_sum(acc[from].balance, t.trade_price * t.trade_qty)),
        );
        let b = a1[to];
        let b2 = with_stock(b, m, t.stock_type, capped_sum(held(b, m, t.stock_type), t.trade_qty as int));
        let b3 = match rebate {
            Some(rb) => if rb.0 == to && rb.1 > t.trade_price {
                with_balance(b2, capped_sum(b2.balance, (rb.1 - t.trade_price) * t.trade_qty))
            } else {
                b2
            },
            None => b2,
        };
        a1.insert(to, b3)
    }
}

/// The accounts after the trades `ts` are settled in order.
pub open spec fn settle(
    acc: Map<Seq<char>, Account>,
    ts: Seq<Trade>,
    m: Seq<char>,
    rebate: Option<(Seq<char>, u64)>,
    skip_self: bool,
) -> Map<Seq<char>, Account>
    decreases ts.len(),
{
    if ts.len() == 0 {
        acc
    } else {
        settle_one(settle(acc, ts.drop_last(), m, rebate, skip_self), ts.last(), m, rebate, skip_self)
    }
}

/// The order that a limit order request makes.
pub open spec fn limit_order_of(
    username: String,
    stock_type: StockType,
    price: u64,
    quantity: u64,
    ordertype: Ordertype,
    market_id: String,
    timestamp: i64,
) -> Order {
    Order { price, quantity, stock_type, username, timestamp, ordertype, market_id }
}

/// The answer to a sign-in once the user is known, given whether the password
/// was accepted.
pub fn credential_check(username: &String, accepted: bool) -> (r: Result<String, ExchangeError>)
    ensures
        accepted ==> r is Ok && r->Ok_0 == *username,
        !accepted ==> r == Err::<String, ExchangeError>(ExchangeError::InvalidCredentials),
{
    if accepted {
        Ok(username.clone())
    } else {
        Err(ExchangeError::InvalidCredentials)
    }
}

impl UserDetails {
    pub open spec fn holdings_map(&self) -> Map<Seq<char>, UserHoldings> {
        keyed(holdings_pairs(self.holdings@))
    }

    /// The holdings in market `market_id`, if any were recorded.
    pub fn get(&self, market_id: &String) -> (r: Option<UserHoldings>)
        ensures
            r == if self.holdings_map().contains_key(market_id@) {
                Some(self.holdings_map()[market_id@])
            } else {
                None::<UserHoldings>
            },
    {
        let ghost pairs = holdings_pairs(self.holdings@);
        let mut k: usize = self.holdings.len();
        while k > 0
            invariant
                k <= self.holdings.len(),
                pairs == holdings_pairs(self.holdings@),
                forall|j: int| k <= j < self.holdings.len() ==> #[trigger] pairs[j].0 != market_id@,
            decreases k,
        {
            if self.holdings[k - 1].0 == *market_id {
                proof {
                    lemma_keyed_at(pairs, k - 1);
                }
                return Some(self.holdings[k - 1].1);
            }
            k = k - 1;
        }
        proof {
            lemma_keyed_absent(pairs, market_id@);
        }
        None
    }
}

proof fn lemma_user_replaced(us: Seq<User>, i: int, u: User)
    requires
        last_of_key(user_pairs(us), i),
        u.username == us[i].username,
    ensures
        keyed(user_pairs(us.update(i, u))) == keyed(user_pairs(us)).insert(us[i].username@, u.account()),
        forall|j: int| 0 <= j < us.len() ==> #[trigger] user_pairs(us.update(i, u))[j].0 == user_pairs(us)[j].0,
{
    let p = user_pairs(us);
    assert(user_pairs(us.update(i, u)) =~= p.update(i, (p[i].0, u.account())));
    lemma_keyed_update(p, i, u.account());
}

proof fn lemma_keys_kept_last(p: Seq<(Seq<char>, Account)>, q: Seq<(Seq<char>, Account)>, i: int)
    requires
        last_of_key(p, i),
        p.len() == q.len(),
        forall|j: int| 0 <= j < p.len() ==> #[trigger] q[j].0 == p[j].0,
    ensures
        last_of_key(q, i),
{
    assert forall|j: int| i < j < q.len() implies #[trigger] q[j].0 != q[i].0 by {
        assert(q[j].0 == p[j].0);
    }
}

/// The rebate that a limit order earns: a buy gets back, per unit, what its limit
/// exceeds the price it filled at.
pub open spec fn rebate_of(order: Order) -> Option<(Seq<char>, u64)> {
    match order.ordertype {
        Ordertype::Buy => Some((order.username@, order.price)),
        Ordertype::Sell => None,
    }
}

/// `e1` is what the limit order `order` makes of `e0`, and `r` is its result.
pub open spec fn limit_order_done(e0: Exchange, e1: Exchange, order: Order, r: Result<Vec<Trade>, ExchangeError>) -> bool {
    let u = order.username@;
    let m = order.market_id@;
    let s = order.stock_type;
    let refusal = if !e0.accounts().contains_key(u) {
        Some(ExchangeError::UserNotFound)
    } else if !e0.market_map().contains_key(m) {
        Some(ExchangeError::MarketNotFound)
    } else if e0.market_map()[m].is_settled {
        Some(ExchangeError::MarketSettled)
    } else {
        limit_refusal(e0.accounts()[u], order)
    };
    match refusal {
        Some(e) => {
            &&& r == Err::<Vec<Trade>, ExchangeError>(e)
            &&& e1.accounts() == e0.accounts()
            &&& e1.market_map() == e0.market_map()
        },
        None => {
            let mk0 = e0.market_map()[m];
            let mk1 = e1.market_map()[m];
            &&& r is Ok
            &&& r->Ok_0@ == limit_fill(mk0.book(s), order).0
            &&& e1.market_map().contains_key(m)
            &&& e1.market_map() == e0.market_map().insert(m, mk1)
            &&& exists|b: OrderBook|
                limit_book_after(mk0.book(s), b, order) && mk0.changed_to(mk1, s, b, mk0.trades@ + r->Ok_0@)
            &&& e1.accounts() == settle(
                e0.accounts().insert(u, limit_lock(e0.accounts()[u], order)),
                r->Ok_0@,
                m,
                rebate_of(order),
                false,
            )
        },
    }
}

/// `e1` is what the market order of `taker` for `qty` units of stock `s` in market
/// `market_id` makes of `e0`, and `r` is its result.
pub open spec fn market_order_done(
    e0: Exchange,
    e1: Exchange,
    taker: String,
    s: StockType,
    qty: u64,
    side: Ordertype,
    market_id: String,
    r: Result<Vec<Trade>, ExchangeError>,
) -> bool {
    let u = taker@;
    let m = market_id@;
    let refusal = if !e0.accounts().contains_key(u) {
        Some(ExchangeError::UserNotFound)
    } else if !e0.market_map().contains_key(m) {
        Some(ExchangeError::MarketNotFound)
    } else if e0.market_map()[m].is_settled {
        Some(ExchangeError::MarketSettled)
    } else {
        market_refusal(e0.accounts()[u], side, qty, m, s)
    };
    match refusal {
        Some(e) => {
            &&& r == Err::<Vec<Trade>, ExchangeError>(e)
            &&& e1.accounts() == e0.accounts()
            &&& e1.market_map() == e0.market_map()
        },
        None => {
            let mk0 = e0.market_map()[m];
            let mk1 = e1.market_map()[m];
            let a0 = e0.accounts()[u];
            &&& r is Ok
            &&& r->Ok_0@ == market_fill(mk0.book(s), taker, side, qty, a0.balance).0
            &&& e1.market_map().contains_key(m)
            &&& e1.market_map() == e0.market_map().insert(m, mk1)
            &&& exists|b: OrderBook|
                market_book_after(mk0.book(s), b, taker, side, qty, a0.balance) && mk0.changed_to(
                    mk1,
                    s,
                    b,
                    mk0.trades@ + r->Ok_0@,
                )
            &&& e1.accounts() == settle(
                e0.accounts().insert(u, market_account_after(a0, mk0.book(s), taker, side, qty, m, s)),
                r->Ok_0@,
                m,
                None,
                true,
            )
        },
    }
}

fn mint_pairs(u: &mut User, m: &String, n: u64)
    requires
        old(u).balance >= n,
    ensures
        final(u).username == old(u).username,
        final(u).account() == split_account(old(u).account(), m@, n),
{
    let ghost h = u.holding(m@);
    let ghost mid = u.holdings_map();
    u.balance = u.balance - n;
    let i = u.holding_slot(m);
    let mut e = u.holdings[i].1;
    e.stock_a = crate::types::capped_add(e.stock_a, n);
    e.stock_b = crate::types::capped_add(e.stock_b, n);
    let ghost pairs = holdings_pairs(u.holdings@);
    u.holdings[i].1 = e;
    proof {
        lemma_keyed_update(pairs, i as int, e);
        assert(holdings_pairs(u.holdings@) =~= pairs.update(i as int, (pairs[i as int].0, e)));
        assert(u.holdings_map() =~= mid.insert(m@, e));
    }
}

fn redeem_pairs(u: &mut User, m: &String, n: u64)
    requires
        old(u).holding(m@).stock_a >= n,
        old(u).holding(m@).stock_b >= n,
    ensures
        final(u).username == old(u).username,
        final(u).account() == merge_account(old(u).account(), m@, n),
{
    let ghost h = u.holding(m@);
    let ghost mid = u.holdings_map();
    u.balance = crate::types::capped_add(u.balance, n);
    let i = u.holding_slot(m);
    let mut e = u.holdings[i].1;
    e.stock_a = e.stock_a - n;
    e.stock_b = e.stock_b - n;
    let ghost pairs = holdings_pairs(u.holdings@);
    u.holdings[i].1 = e;
    proof {
        lemma_keyed_update(pairs, i as int, e);
        assert(holdings_pairs(u.holdings@) =~= pairs.update(i as int, (pairs[i as int].0, e)));
        assert(u.holdings_map() =~= mid.insert(m@, e));
    }
}

impl Exchange {
    /// The accounts, by user name.
    pub open spec fn accounts(&self) -> Map<Seq<char>, Account> {
        keyed(user_pairs(self.users@))
    }

    /// Every market's books are well formed.
    pub open spec fn wf(&self) -> bool {
        forall|i: int| 0 <= i < self.markets@.len() ==> (#[trigger] self.markets@[i]).wf()
    }

    /// The markets, by identifier.
    pub open spec fn market_map(&self) -> Map<Seq<char>, Market> {
        keyed(market_pairs(self.markets@))
    }

    pub fn new() -> (r: Exchange)
        ensures
            r.wf(),
            r.accounts() == Map::<Seq<char>, Account>::empty(),
            r.market_map() == Map::<Seq<char>, Market>::empty(),
    {
        let r = Exchange { users: Vec::new(), markets: Vec::new() };
        assert(user_pairs(r.users@) =~= Seq::empty());
        assert(market_pairs(r.markets@) =~= Seq::empty());
        r
    }

    fn find_user(&self, name: &String) -> (r: Option<usize>)
        ensures
            r matches Some(i) ==> last_of_key(user_pairs(self.users@), i as int)
                && self.users@[i as int].username@ == name@
                && self.accounts().contains_key(name@)
                && self.accounts()[name@] == self.users@[i as int].account(),
            r is None ==> !self.accounts().contains_key(name@),
    {
        let ghost pairs = user_pairs(self.users@);
        let mut k: usize = self.users.len();
        while k > 0
            invariant
                k <= self.users.len(),
                pairs == user_pairs(self.users@),
                forall|j: int| k <= j < self.users.len() ==> #[trigger] pairs[j].0 != name@,
            decreases k,
        {
            if self.users[k - 1].username == *name {
                proof {
                    lemma_keyed_at(pairs, k - 1);
                }
                return Some(k - 1);
            }
            k = k - 1;
        }
        proof {
            lemma_keyed_absent(pairs, name@);
        }
        None
    }

    fn find_market(&self, id: &String) -> (r: Option<usize>)
        ensures
            r matches Some(i) ==> last_of_key(market_pairs(self.markets@), i as int)
                && self.markets@[i as int].market_id@ == id@
                && self.market_map().contains_key(id@)
                && self.market_map()[id@] == self.markets@[i as int],
            r is None ==> !self.market_map().contains_key(id@),
    {
        let ghost pairs = market_pairs(self.markets@);
        let mut k: usize = self.markets.len();
        while k > 0
            invariant
                k <= self.markets.len(),
                pairs == market_pairs(self.markets@),
                forall|j: int| k <= j < self.markets.len() ==> #[trigger] pairs[j].0 != id@,
            decreases k,
        {
            if self.markets[k - 1].market_id == *id {
                proof {
                    lemma_keyed_at(pairs, k - 1);
                }
                return Some(k - 1);
            }
            k = k - 1;
        }
        proof {
            lemma_keyed_absent(pairs, id@);
        }
        None
    }

    /// Registers `username` with the hashed credential `password` and the starting
    /// balance; a name already taken is refused and changes nothing.
    pub fn signup(&mut self, username: String, password: String) -> (r: Result<String, ExchangeError>)
        ensures
            old(self).accounts().contains_key(username@) ==> {
                &&& r == Err::<String, ExchangeError>(ExchangeError::UsernameTaken)
                &&& *final(self) == *old(self)
            },
            !old(self).accounts().contains_key(username@) ==> {
                &&& r == Ok::<String, ExchangeError>(username)
                &&& final(self).accounts() == old(self).accounts().insert(username@, new_account(password@))
                &&& final(self).markets == old(self).markets
            },
    {
        match self.find_user(&username) {
            Some(_) => Err(ExchangeError::UsernameTaken),
            None => {
                let ghost pairs = user_pairs(self.users@);
                let u = User {
                    username: username.clone(),
                    password,
                    balance: STARTING_BALANCE,
                    holdings: Vec::new(),
                };
                assert(holdings_pairs(u.holdings@) =~= Seq::empty());
                assert(u.account() =~= new_account(u.password@));
                self.users.push(u);
                proof {
                    assert(user_pairs(self.users@) =~= pairs.push((username@, u.account())));
                    lemma_keyed_push(pairs, username@, u.account());
                }
                Ok(username)
            },
        }
    }

    /// Signs `username` in: `UserNotFound` for an unknown name, `InvalidCredentials`
    /// where bcrypt refuses the password against the stored hash.
    pub fn signin(&self, username: &String, password: &String) -> (r: Result<String, ExchangeError>)
        ensures
            !self.accounts().contains_key(username@) ==> r == Err::<String, ExchangeError>(
                ExchangeError::UserNotFound,
            ),
            self.accounts().contains_key(username@) ==> if bcrypt_accepts(
                password@,
                self.accounts()[username@].password,
            ) {
                r is Ok && r->Ok_0 == *username
            } else {
                r == Err::<String, ExchangeError>(ExchangeError::InvalidCredentials)
            },
    {
        match self.find_user(username) {
            None => Err(ExchangeError::UserNotFound),
            Some(i) => {
                let accepted = verify_password(password.as_str(), self.users[i].password.as_str());
                credential_check(username, accepted)
            },
        }
    }

    /// Creates a market named `market_name` by `username` under a freshly drawn
    /// identifier of 21 characters, and gives that identifier. It fails with
    /// `MarketAlreadyExists` only where the drawn identifier is already in use, so
    /// it always succeeds where no market has an identifier of that length.
    pub fn create_market(&mut self, username: String, market_name: String) -> (r: Result<String, ExchangeError>)
        ensures
            old(self).accounts().contains_key(username@) && (forall|k: Seq<char>|
                #[trigger] old(self).market_map().contains_key(k) ==> k.len() != 21) ==> r is Ok,
            !old(self).accounts().contains_key(username@) ==> {
                &&& r == Err::<String, ExchangeError>(ExchangeError::UserNotFound)
                &&& *final(self) == *old(self)
            },
            old(self).accounts().contains_key(username@) ==> match r {
                Ok(id) => {
                    &&& id@.len() == 21
                    &&& !old(self).market_map().contains_key(id@)
                    &&& final(self).market_map().contains_key(id@)
                    &&& fresh_market(final(self).market_map()[id@], id@, market_name@, username@)
                    &&& final(self).market_map() == old(self).market_map().insert(id@, final(self).market_map()[id@])
                    &&& final(self).users == old(self).users
                },
                Err(e) => {
                    &&& e == ExchangeError::MarketAlreadyExists
                    &&& exists|k: Seq<char>| k.len() == 21 && #[trigger] old(self).market_map().contains_key(k)
                    &&& *final(self) == *old(self)
                },
            },
            old(self).wf() ==> final(self).wf(),
    {
        if self.find_user(&username).is_none() {
            return Err(ExchangeError::UserNotFound);
        }
        let id = fresh_market_id();
        let ghost key = id@;
        let r = self.create_market_with_id(username, market_name, id);
        proof {
            if r is Err {
                assert(old(self).market_map().contains_key(key));
                assert(key.len() == 21);
            }
        }
        r
    }

    /// Creates a market named `market_name` by `username` under the identifier
    /// `market_id`; an identifier already in use is refused.
    pub fn create_market_with_id(&mut self, username: String, market_name: String, market_id: String) -> (r:
        Result<String, ExchangeError>)
        ensures
            !old(self).accounts().contains_key(username@) ==> {
                &&& r == Err::<String, ExchangeError>(ExchangeError::UserNotFound)
                &&& *final(self) == *old(self)
            },
            old(self).accounts().contains_key(username@) && old(self).market_map().contains_key(market_id@) ==> {
                &&& r == Err::<String, ExchangeError>(ExchangeError::MarketAlreadyExists)
                &&& *final(self) == *old(self)
            },
            old(self).accounts().contains_key(username@) && !old(self).market_map().contains_key(market_id@) ==> {
                &&& r == Ok::<String, ExchangeError>(market_id)
                &&& final(self).market_map().contains_key(market_id@)
                &&& fresh_market(final(self).market_map()[market_id@], market_id@, market_name@, username@)
                &&& final(self).market_map() == old(self).market_map().insert(
                    market_id@,
                    final(self).market_map()[market_id@],
                )
                &&& final(self).users == old(self).users
            },
            old(self).wf() ==> final(self).wf(),
    {
        if self.find_user(&username).is_none() {
            return Err(ExchangeError::UserNotFound);
        }
        if self.find_market(&market_id).is_some() {
            return Err(ExchangeError::MarketAlreadyExists);
        }
        let ghost pairs = market_pairs(self.markets@);
        let mk = Market::with_id(market_id.clone(), market_name, username);
        self.markets.push(mk);
        proof {
            if old(self).wf() {
                assert forall|k: int| 0 <= k < self.markets@.len() implies (#[trigger] self.markets@[k]).wf() by {
                    if k < self.markets@.len() - 1 {
                        assert(self.markets@[k] == old(self).markets@[k]);
                    }
                }
            }
            assert(market_pairs(self.markets@) =~= pairs.push((market_id@, mk)));
            lemma_keyed_push(pairs, market_id@, mk);
        }
        Ok(market_id)
    }

    /// Mints `amount` pairs of stock of market `market_id` for `username` out of
    /// `amount` of the balance.
    pub fn split_stocks(&mut self, username: &String, market_id: &String, amount: u64) -> (r: Result<
        (),
        ExchangeError,
    >)
        ensures
            !old(self).accounts().contains_key(username@) ==> r == Err::<(), ExchangeError>(
                ExchangeError::UserNotFound,
            ),
            old(self).accounts().contains_key(username@) && old(self).accounts()[username@].balance < amount
                ==> r == Err::<(), ExchangeError>(
                ExchangeError::InsufficientFunds {
                    required: amount,
                    available: old(self).accounts()[username@].balance,
                },
            ),
            old(self).accounts().contains_key(username@) && old(self).accounts()[username@].balance >= amount
                && !old(self).market_map().contains_key(market_id@) ==> r == Err::<(), ExchangeError>(
                ExchangeError::MarketNotFound,
            ),
            old(self).accounts().contains_key(username@) && old(self).accounts()[username@].balance >= amount
                && old(self).market_map().contains_key(market_id@) ==> r is Ok,
            r is Err ==> *final(self) == *old(self),
            r is Ok ==> {
                &&& old(self).accounts().contains_key(username@)
                &&& old(self).market_map().contains_key(market_id@)
                &&& final(self).accounts() == old(self).accounts().insert(
                    username@,
                    split_account(old(self).accounts()[username@], market_id@, amount),
                )
                &&& final(self).markets == old(self).markets
            },
    {
        let i = match self.find_user(username) {
            None => return Err(ExchangeError::UserNotFound),
            Some(i) => i,
        };
        if self.users[i].balance < amount {
            return Err(ExchangeError::InsufficientFunds { required: amount, available: self.users[i].balance });
        }
        if self.find_market(market_id).is_none() {
            return Err(ExchangeError::MarketNotFound);
        }
        let ghost us = self.users@;
        mint_pairs(&mut self.users[i], market_id, amount);
        proof {
            lemma_user_replaced(us, i as int, self.users@[i as int]);
            assert(self.users@ == us.update(i as int, self.users@[i as int]));
        }
        Ok(())
    }

    /// Redeems `amount` pairs of stock of market `market_id` of `username` for
    /// `amount` of the balance. An unknown user is refused with `UserNotFound`.
    pub fn merge_stocks(&mut self, username: &String, market_id: &String, amount: u64) -> (r: Result<
        (),
        ExchangeError,
    >)
        ensures
            !old(self).accounts().contains_key(username@) ==> r == Err::<(), ExchangeError>(
                ExchangeError::UserNotFound,
            ),
            old(self).accounts().contains_key(username@) && pairs_held(old(self).accounts()[username@], market_id@)
                < amount ==> r == Err::<(), ExchangeError>(
                ExchangeError::InsufficientHoldings {
                    required: amount,
                    available: pairs_held(old(self).accounts()[username@], market_id@),
                },
            ),
            old(self).accounts().contains_key(username@) && pairs_held(old(self).accounts()[username@], market_id@)
                >= amount ==> r is Ok,
            r is Err ==> *final(self) == *old(self),
            r is Ok ==> {
                &&& old(self).accounts().contains_key(username@)
                &&& final(self).accounts() == old(self).accounts().insert(
                    username@,
                    merge_account(old(self).accounts()[username@], market_id@, amount),
                )
                &&& final(self).markets == old(self).markets
            },
    {
        let i = match self.find_user(username) {
            None => return Err(ExchangeError::UserNotFound),
            Some(i) => i,
        };
        let h = self.users[i].holding_of(market_id);
        if h.stock_a < amount || h.stock_b < amount {
            let available = if h.stock_a <= h.stock_b { h.stock_a } else { h.stock_b };
            return Err(ExchangeError::InsufficientHoldings { required: amount, available });
        }
        let ghost us = self.users@;
        redeem_pairs(&mut self.users[i], market_id, amount);
        proof {
            lemma_user_replaced(us, i as int, self.users@[i as int]);
            assert(self.users@ == us.update(i as int, self.users@[i as int]));
        }
        Ok(())
    }

    /// The balance and holdings of `username`.
    pub fn user_details(&self, username: &String) -> (r: Result<UserDetails, ExchangeError>)
        ensures
            !self.accounts().contains_key(username@) ==> r == Err::<UserDetails, ExchangeError>(
                ExchangeError::UserNotFound,
            ),
            self.accounts().contains_key(username@) ==> {
                &&& r is Ok
                &&& r->Ok_0.balance == self.accounts()[username@].balance
                &&& r->Ok_0.holdings_map() == self.accounts()[username@].holdings
            },
    {
        let i = match self.find_user(username) {
            None => return Err(ExchangeError::UserNotFound),
            Some(i) => i,
        };
        let u = &self.users[i];
        let mut holdings: Vec<(String, UserHoldings)> = Vec::new();
        let mut k: usize = 0;
        while k < u.holdings.len()
            invariant
                k <= u.holdings.len(),
                holdings_pairs(holdings@) == holdings_pairs(u.holdings@).subrange(0, k as int),
            decreases u.holdings.len() - k,
        {
            let ghost before = holdings@;
            let e = (u.holdings[k].0.clone(), u.holdings[k].1);
            holdings.push(e);
            proof {
                assert(holdings@ == before.push(e));
                assert(holdings_pairs(holdings@) =~= holdings_pairs(before).push((e.0@, e.1)));
                assert(holdings_pairs(u.holdings@)[k as int] == (u.holdings@[k as int].0@, u.holdings@[k as int].1));
                assert(holdings_pairs(holdings@) =~= holdings_pairs(u.holdings@).subrange(0, k + 1));
            }
            k = k + 1;
        }
        assert(holdings_pairs(u.holdings@).subrange(0, k as int) =~= holdings_pairs(u.holdings@));
        Ok(UserDetails { balance: u.balance, holdings })
    }

    /// Copies of the two books of market `market_id`.
    pub fn get_orderbook(&self, market_id: &String) -> (r: Result<Orderbooks, ExchangeError>)
        ensures
            !self.market_map().contains_key(market_id@) ==> r == Err::<Orderbooks, ExchangeError>(
                ExchangeError::MarketNotFound,
            ),
            self.market_map().contains_key(market_id@) ==> {
                let mk = self.market_map()[market_id@];
                &&& r is Ok
                &&& r->Ok_0.stock_a.buy_view() == mk.stock_a.buy_view()
                &&& r->Ok_0.stock_a.sell_view() == mk.stock_a.sell_view()
                &&& r->Ok_0.stock_b.buy_view() == mk.stock_b.buy_view()
                &&& r->Ok_0.stock_b.sell_view() == mk.stock_b.sell_view()
            },
    {
        match self.find_market(market_id) {
            None => Err(ExchangeError::MarketNotFound),
            Some(i) => Ok(
                Orderbooks {
                    stock_a: self.markets[i].stock_a.snapshot(),
                    stock_b: self.markets[i].stock_b.snapshot(),
                },
            ),
        }
    }

    /// Settles `trades` of market `m` in order; see `settle`.
    fn settle_trades(
        &mut self,
        trades: &Vec<Trade>,
        m: &String,
        requester: &String,
        rebate_limit: Option<u64>,
        skip_self: bool,
    )
        ensures
            final(self).accounts() == settle(
                old(self).accounts(),
                trades@,
                m@,
                match rebate_limit {
                    Some(l) => Some((requester@, l)),
                    None => None,
                },
                skip_self,
            ),
            final(self).markets == old(self).markets,
    {
        let ghost rb = match rebate_limit {
            Some(l) => Some((requester@, l)),
            None => None,
        };
        let ghost acc0 = self.accounts();
        let mut k: usize = 0;
        assert(trades@.subrange(0, 0) =~= Seq::<Trade>::empty());
        while k < trades.len()
            invariant
                k <= trades.len(),
                self.accounts() == settle(acc0, trades@.subrange(0, k as int), m@, rb, skip_self),
                rb == match rebate_limit {
                    Some(l) => Some((requester@, l)),
                    None => None,
                },
                self.markets == old(self).markets,
            decreases trades.len() - k,
        {
            let t = &trades[k];
            let ghost before = self.accounts();
            assert(trades@.subrange(0, k + 1).drop_last() =~= trades@.subrange(0, k as int));
            let si = self.find_user(&t.from);
            let bi = self.find_user(&t.to);
            if si.is_some() && bi.is_some() && !(skip_self && t.from == t.to) {
                let si = si.unwrap();
                let bi = bi.unwrap();
                let ghost us0 = self.users@;
                let ghost a1 = before.insert(
                    t.from@,
                    with_balance(before[t.from@], capped_sum(before[t.from@].balance, t.trade_price * t.trade_qty)),
                );
                let ghost b2 = with_stock(
                    a1[t.to@],
                    m@,
                    t.stock_type,
                    capped_sum(held(a1[t.to@], m@, t.stock_type), t.trade_qty as int),
                );
                self.users[si].credit_balance(t.trade_price, t.trade_qty);
                proof {
                    lemma_user_replaced(us0, si as int, self.users@[si as int]);
                    assert(self.users@ == us0.update(si as int, self.users@[si as int]));
                    lemma_keys_kept_last(user_pairs(us0), user_pairs(self.users@), bi as int);
                    lemma_keyed_at(user_pairs(self.users@), bi as int);
                    assert(self.accounts() == a1);
                    assert(self.users@[bi as int].account() == a1[t.to@]);
                }
                let ghost us1 = self.users@;
                self.users[bi].credit_stock(m, t.stock_type, t.trade_qty);
                proof {
                    lemma_user_replaced(us1, bi as int, self.users@[bi as int]);
                    assert(self.users@ == us1.update(bi as int, self.users@[bi as int]));
                    lemma_keys_kept_last(user_pairs(us1), user_pairs(self.users@), bi as int);
                    assert(self.accounts() == a1.insert(t.to@, b2));
                }
                match rebate_limit {
                    Some(limit) => {
                        if t.to == *requester && limit > t.trade_price {
                            let ghost us2 = self.users@;
                            self.users[bi].credit_balance(limit - t.trade_price, t.trade_qty);
                            proof {
                                lemma_user_replaced(us2, bi as int, self.users@[bi as int]);
                                assert(self.users@ == us2.update(bi as int, self.users@[bi as int]));
                                assert(rb == Some((requester@, limit)));
                                assert(self.accounts() == a1.insert(
                                    t.to@,
                                    with_balance(b2, capped_sum(b2.balance, (limit - t.trade_price) * t.trade_qty)),
                                ));
                            }
                        } else {
                            assert(rb == Some((requester@, limit)));
                            assert(!(requester@ == t.to@ && limit > t.trade_price));
                        }
                    },
                    None => {
                        assert(rb is None);
                    },
                }
                proof {
                    assert(self.accounts() =~= settle_one(before, trades@[k as int], m@, rb, skip_self));
                }
            }
            k = k + 1;
        }
        assert(trades@.subrange(0, k as int) =~= trades@);
    }

    /// Places a limit order of `username` stamped with the current time; see
    /// `create_limit_order_at`.
    pub fn create_limit_order(
        &mut self,
        username: String,
        stock_type: StockType,
        price: u64,
        quantity: u64,
        ordertype: Ordertype,
        market_id: String,
    ) -> (r: Result<Vec<Trade>, ExchangeError>)
        ensures
            exists|ts: i64|
                limit_order_done(
                    *old(self),
                    *final(self),
                    limit_order_of(username, stock_type, price, quantity, ordertype, market_id, ts),
                    r,
                ),
            old(self).wf() ==> final(self).wf(),
    {
        let timestamp = now_millis();
        self.create_limit_order_at(username, stock_type, price, quantity, ordertype, market_id, timestamp)
    }

    /// Places a limit order of `username` for `quantity` units of `stock_type` at
    /// `price` in market `market_id`, stamped `timestamp`, and settles its trades:
    /// each seller is paid, each buyer receives the stock, and a buy that filled
    /// below its limit gets the difference back.
    pub fn create_limit_order_at(
        &mut self,
        username: String,
        stock_type: StockType,
        price: u64,
        quantity: u64,
        ordertype: Ordertype,
        market_id: String,
        timestamp: i64,
    ) -> (r: Result<Vec<Trade>, ExchangeError>)
        ensures
            limit_order_done(
                *old(self),
                *final(self),
                limit_order_of(username, stock_type, price, quantity, ordertype, market_id, timestamp),
                r,
            ),
            old(self).wf() ==> final(self).wf(),
    {
        let ghost order = limit_order_of(
            username,
            stock_type,
            price,
            quantity,
            ordertype,
            market_id,
            timestamp,
        );
        let i = match self.find_user(&username) {
            None => return Err(ExchangeError::UserNotFound),
            Some(i) => i,
        };
        let j = match self.find_market(&market_id) {
            None => return Err(ExchangeError::MarketNotFound),
            Some(j) => j,
        };
        if self.markets[j].is_settled {
            return Err(ExchangeError::MarketSettled);
        }
        let ghost us0 = self.users@;
        let ghost ms0 = self.markets@;
        let ghost mm0 = self.market_map();
        let m = market_id.clone();
        let requester = username.clone();
        let o = Order { price, quantity, stock_type, username, timestamp, ordertype, market_id };
        let r = self.markets[j].add_limit_order(o, &mut self.users[i]);
        proof {
            assert(self.users@ == us0.update(i as int, self.users@[i as int]));
            assert(self.markets@ == ms0.update(j as int, self.markets@[j as int]));
            lemma_user_replaced(us0, i as int, self.users@[i as int]);
            assert(market_pairs(self.markets@) =~= market_pairs(ms0).update(
                j as int,
                (market_pairs(ms0)[j as int].0, self.markets@[j as int]),
            ));
            lemma_keyed_update(market_pairs(ms0), j as int, self.markets@[j as int]);
            lemma_keyed_at(market_pairs(self.markets@), j as int);
            if old(self).wf() {
                assert(ms0[j as int].wf());
                assert forall|k: int| 0 <= k < self.markets@.len() implies (#[trigger] self.markets@[k]).wf() by {
                    if k != j {
                        assert(self.markets@[k] == ms0[k]);
                    }
                }
            }
        }
        match r {
            Err(e) => {
                assert(self.users@ =~= us0);
                assert(self.markets@ =~= ms0);
                Err(e)
            },
            Ok(trades) => {
                let rebate_limit = match ordertype {
                    Ordertype::Buy => Some(price),
                    Ordertype::Sell => None,
                };
                self.settle_trades(&trades, &m, &requester, rebate_limit, false);
                Ok(trades)
            },
        }
    }

    /// Executes a market order of `username` for `quantity` units of `stock_type`
    /// in market `market_id` and settles its trades; a trade of a user with
    /// itself moves nothing.
    pub fn create_market_order(
        &mut self,
        username: String,
        stock_type: StockType,
        quantity: u64,
        ordertype: Ordertype,
        market_id: String,
    ) -> (r: Result<Vec<Trade>, ExchangeError>)
        ensures
            market_order_done(*old(self), *final(self), username, stock_type, quantity, ordertype, market_id, r),
            old(self).wf() ==> final(self).wf(),
    {
        let ghost u = username;
        let ghost mid = market_id;
        let i = match self.find_user(&username) {
            None => return Err(ExchangeError::UserNotFound),
            Some(i) => i,
        };
        let j = match self.find_market(&market_id) {
            None => return Err(ExchangeError::MarketNotFound),
            Some(j) => j,
        };
        if self.markets[j].is_settled {
            return Err(ExchangeError::MarketSettled);
        }
        let ghost us0 = self.users@;
        let ghost ms0 = self.markets@;
        let m = market_id.clone();
        let requester = username.clone();
        let r = self.markets[j].execute_market_order(
            username,
            ordertype,
            quantity,
            stock_type,
            &mut self.users[i],
            market_id,
        );
        proof {
            assert(self.users@ == us0.update(i as int, self.users@[i as int]));
            assert(self.markets@ == ms0.update(j as int, self.markets@[j as int]));
            lemma_user_replaced(us0, i as int, self.users@[i as int]);
            assert(market_pairs(self.markets@) =~= market_pairs(ms0).update(
                j as int,
                (market_pairs(ms0)[j as int].0, self.markets@[j as int]),
            ));
            lemma_keyed_update(market_pairs(ms0), j as int, self.markets@[j as int]);
            lemma_keyed_at(market_pairs(self.markets@), j as int);
            if old(self).wf() {
                assert(ms0[j as int].wf());
                assert forall|k: int| 0 <= k < self.markets@.len() implies (#[trigger] self.markets@[k]).wf() by {
                    if k != j {
                        assert(self.markets@[k] == ms0[k]);
                    }
                }
            }
        }
        match r {
            Err(e) => {
                assert(self.users@ =~= us0);
                assert(self.markets@ =~= ms0);
                Err(e)
            },
            Ok(trades) => {
                self.settle_trades(&trades, &m, &requester, None, true);
                Ok(trades)
            },
        }
    }
}

} // verus!
