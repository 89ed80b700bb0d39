//! The order book of one stock: resting limit orders by price level, and the
//! matching of incoming limit and market orders by price-time priority.

use crate::types::{
    capped_sum, held, holdings_pairs, set_stock, stock_of, with_balance, with_quantity, with_stock,
    Account, ExchangeError, Order, Ordertype, StockType, Trade, User,
};
use crate::keyed::lemma_keyed_update;
use crate::outside::now_millis;
use vstd::prelude::*;

verus! {

/// The resting orders at one price, oldest first.
#[derive(Debug)]
pub struct PriceLevel {
    pub price: u64,
    pub orders: Vec<Order>,
}

/// Resting limit orders of one stock. Each side lists its levels best first: `buy`
/// from the highest price down, `sell` from the lowest price up.
#[derive(Debug)]
pub struct OrderBook {
    pub buy: Vec<PriceLevel>,
    pub sell: Vec<PriceLevel>,
}

/// A side of a book as (price, orders oldest first), best level first.
pub open spec fn levels_view(ls: Seq<PriceLevel>) -> Seq<(u64, Seq<Order>)> {
    ls.map_values(|l: PriceLevel| (l.price, l.orders@))
}

/// On a side ordered from the highest price (`desc`) or from the lowest, a level at
/// price `a` stands before price `p`.
pub open spec fn ahead(a: u64, p: u64, desc: bool) -> bool {
    if desc {
        a > p
    } else {
        a < p
    }
}

/// A resting level at price `level` can fill an incoming buy (`buy`) or sell whose
/// limit is `limit`.
pub open spec fn crosses(level: u64, buy: bool, limit: u64) -> bool {
    if buy {
        level <= limit
    } else {
        level >= limit
    }
}

/// The side after `t` units are taken from its first resting order; an order left
/// with nothing is removed, and so is a level left with no order.
pub open spec fn take_head(ls: Seq<(u64, Seq<Order>)>, t: u64) -> Seq<(u64, Seq<Order>)> {
    let head = ls[0].1[0];
    if head.quantity > t {
        ls.update(0, (ls[0].0, ls[0].1.update(0, with_quantity(head, (head.quantity - t) as u64))))
    } else if ls[0].1.len() > 1 {
        ls.update(0, (ls[0].0, ls[0].1.drop_first()))
    } else {
        ls.drop_first()
    }
}

/// The trade of `t` units at price `p` between the resting order `head` and the
/// incoming order of `taker`, who buys (`buy`) or sells.
pub open spec fn trade_of(head: Order, taker: String, buy: bool, t: u64, p: u64) -> Trade {
    if buy {
        Trade { from: head.username, to: taker, trade_qty: t, trade_price: p, stock_type: head.stock_type }
    } else {
        Trade { from: taker, to: head.username, trade_qty: t, trade_price: p, stock_type: head.stock_type }
    }
}

/// Matching an incoming order of `taker` for `qty` units against the side `ls`,
/// best level first and oldest order first within a level, while the level's price
/// crosses `limit` and, where a `budget` is given, while it covers the next fill.
/// Gives the trades, the side left, the quantity left and the budget left.
pub open spec fn fill(
    ls: Seq<(u64, Seq<Order>)>,
    taker: String,
    buy: bool,
    limit: u64,
    qty: u64,
    budget: Option<u64>,
) -> (Seq<Trade>, Seq<(u64, Seq<Order>)>, u64, Option<u64>)
    decreases qty,
{
    if qty == 0 || ls.len() == 0 || ls[0].1.len() == 0 {
        (Seq::empty(), ls, qty, budget)
    } else {
        let head = ls[0].1[0];
        let p = ls[0].0;
        let t: u64 = if qty <= head.quantity { qty } else { head.quantity };
        let affordable = match budget {
            Some(b) => t * p <= b,
            None => true,
        };
        if t == 0 || !crosses(p, buy, limit) || !affordable {
            (Seq::empty(), ls, qty, budget)
        } else {
            let next_budget = match budget {
                Some(b) => Some((b - t * p) as u64),
                None => None,
            };
            let r = fill(take_head(ls, t), taker, buy, limit, (qty - t) as u64, next_budget);
            (seq![trade_of(head, taker, buy, t, p)] + r.0, r.1, r.2, r.3)
        }
    }
}

/// The side `ls` with order `o` rested at its price: at the back of the level of
/// that price, or in a new level at its place in price order.
pub open spec fn rest_insert(ls: Seq<(u64, Seq<Order>)>, o: Order, desc: bool) -> Seq<(u64, Seq<Order>)>
    decreases ls.len(),
{
    if ls.len() == 0 {
        seq![(o.price, seq![o])]
    } else if ls[0].0 == o.price {
        ls.update(0, (o.price, ls[0].1.push(o)))
    } else if ahead(ls[0].0, o.price, desc) {
        seq![ls[0]] + rest_insert(ls.drop_first(), o, desc)
    } else {
        seq![(o.price, seq![o])] + ls
    }
}

/// A well-formed side: prices strictly in order, no empty level, and every resting
/// order has quantity left and rests at its own price.
pub open spec fn side_wf(ls: Seq<(u64, Seq<Order>)>, desc: bool) -> bool {
    &&& forall|i: int, j: int|
        #![trigger ls[i], ls[j]]
        0 <= i < j < ls.len() ==> ahead(ls[i].0, ls[j].0, desc)
    &&& forall|i: int| 0 <= i < ls.len() ==> (#[trigger] ls[i]).1.len() > 0
    &&& forall|i: int, k: int|
        0 <= i < ls.len() && 0 <= k < ls[i].1.len() ==> (#[trigger] ls[i].1[k]).quantity > 0
            && ls[i].1[k].price == ls[i].0
}

proof fn lemma_rest_insert_at(ls: Seq<(u64, Seq<Order>)>, o: Order, desc: bool, i: int)
    requires
        0 <= i <= ls.len(),
        forall|j: int| 0 <= j < i ==> ahead((#[trigger] ls[j]).0, o.price, desc),
        i < ls.len() ==> !ahead(ls[i].0, o.price, desc),
    ensures
        rest_insert(ls, o, desc) == if i < ls.len() && ls[i].0 == o.price {
            ls.update(i, (o.price, ls[i].1.push(o)))
        } else {
            ls.insert(i, (o.price, seq![o]))
        },
    decreases i,
{
    if i == 0 {
        if ls.len() == 0 {
            assert(seq![(o.price, seq![o])] =~= ls.insert(0, (o.price, seq![o])));
        } else if ls[0].0 != o.price {
            assert(seq![(o.price, seq![o])] + ls =~= ls.insert(0, (o.price, seq![o])));
        }
    } else {
        let d = ls.drop_first();
        assert(ahead(ls[0].0, o.price, desc));
        assert forall|j: int| 0 <= j < i - 1 implies ahead((#[trigger] d[j]).0, o.price, desc) by {
            assert(d[j] == ls[j + 1]);
        }
        if i < ls.len() {
            assert(d[i - 1] == ls[i]);
        }
        lemma_rest_insert_at(d, o, desc, i - 1);
        if i < ls.len() && ls[i].0 == o.price {
            assert(seq![ls[0]] + d.update(i - 1, (o.price, d[i - 1].1.push(o))) =~= ls.update(
                i,
                (o.price, ls[i].1.push(o)),
            ));
        } else {
            assert(seq![ls[0]] + d.insert(i - 1, (o.price, seq![o])) =~= ls.insert(
                i,
                (o.price, seq![o]),
            ));
        }
    }
}

/// See `ahead`.
fn is_ahead(a: u64, p: u64, desc: bool) -> (r: bool)
    ensures
        r == ahead(a, p, desc),
{
    if desc {
        a > p
    } else {
        a < p
    }
}

/// Rests `o` on the side `levels`, ordered from the highest price (`desc`) or from
/// the lowest.
fn rest_order(levels: &mut Vec<PriceLevel>, o: Order, desc: bool)
    ensures
        levels_view(final(levels)@) == rest_insert(levels_view(old(levels)@), o, desc),
{
    let ghost v = levels_view(levels@);
    let price = o.price;
    let mut i: usize = 0;
    while i < levels.len()
        invariant
            i <= levels.len(),
            v == levels_view(levels@),
            price == o.price,
            forall|j: int| 0 <= j < i ==> ahead((#[trigger] v[j]).0, o.price, desc),
        ensures
            i <= levels.len(),
            forall|j: int| 0 <= j < i ==> ahead((#[trigger] v[j]).0, o.price, desc),
            i < levels.len() ==> !ahead(v[i as int].0, o.price, desc),
        decreases levels.len() - i,
    {
        assert(v[i as int].0 == levels@[i as int].price);
        if !is_ahead(levels[i].price, price, desc) {
            break;
        }
        i = i + 1;
    }
    proof {
        lemma_rest_insert_at(v, o, desc, i as int);
    }
    if i < levels.len() && levels[i].price == price {
        let mut level = levels.remove(i);
        level.orders.push(o);
        levels.insert(i, level);
        assert(levels_view(levels@) =~= v.update(i as int, (o.price, v[i as int].1.push(o))));
    } else {
        let mut orders: Vec<Order> = Vec::new();
        orders.push(o);
        levels.insert(i, PriceLevel { price, orders });
        assert(levels_view(levels@) =~= v.insert(i as int, (o.price, seq![o])));
    }
}

/// Takes `t` units from the first resting order of `levels` and gives that order as
/// it was.
fn take_head_exec(levels: &mut Vec<PriceLevel>, t: u64) -> (head: Order)
    requires
        old(levels).len() > 0,
        old(levels)[0].orders.len() > 0,
        0 < t <= old(levels)[0].orders[0].quantity,
    ensures
        head == old(levels)@[0].orders@[0],
        levels_view(final(levels)@) == take_head(levels_view(old(levels)@), t),
{
    let ghost v = levels_view(levels@);
    let mut level = levels.remove(0);
    let mut h = level.orders.remove(0);
    let head = h.copy();
    if h.quantity > t {
        h.quantity = h.quantity - t;
        assert(h == with_quantity(head, (head.quantity - t) as u64));
        level.orders.insert(0, h);
        assert(level.orders@ =~= v[0].1.update(0, with_quantity(head, (head.quantity - t) as u64)));
        levels.insert(0, level);
        assert(levels_view(levels@) =~= take_head(v, t));
    } else if level.orders.len() > 0 {
        levels.insert(0, level);
        assert(levels_view(levels@) =~= take_head(v, t));
    } else {
        assert(levels_view(levels@) =~= take_head(v, t));
    }
    head
}

/// Matches an incoming order of `taker` against the side `levels`; see `fill`.
fn fill_levels(
    levels: &mut Vec<PriceLevel>,
    taker: &String,
    buy: bool,
    limit: u64,
    qty: u64,
    budget: Option<u64>,
) -> (r: (Vec<Trade>, u64, Option<u64>))
    ensures
        ({
            let f = fill(levels_view(old(levels)@), *taker, buy, limit, qty, budget);
            &&& r.0@ == f.0
            &&& levels_view(final(levels)@) == f.1
            &&& r.1 == f.2
            &&& r.2 == f.3
        }),
{
    let ghost goal = fill(levels_view(levels@), *taker, buy, limit, qty, budget);
    let mut trades: Vec<Trade> = Vec::new();
    let mut left: u64 = qty;
    let mut funds: Option<u64> = budget;
    loop
        invariant
            ({
                let f = fill(levels_view(levels@), *taker, buy, limit, left, funds);
                &&& goal.0 == trades@ + f.0
                &&& goal.1 == f.1
                &&& goal.2 == f.2
                &&& goal.3 == f.3
            }),
        ensures
            goal.0 == trades@,
            goal.1 == levels_view(levels@),
            goal.2 == left,
            goal.3 == funds,
        decreases left,
    {
        let ghost v = levels_view(levels@);
        if left == 0 || levels.len() == 0 || levels[0].orders.len() == 0 {
            assert(trades@ + Seq::<Trade>::empty() =~= trades@);
            break;
        }
        assert(v[0].1[0] == levels@[0].orders@[0]);
        let p = levels[0].price;
        let head_q = levels[0].orders[0].quantity;
        let t: u64 = if left <= head_q { left } else { head_q };
        let crossing = if buy { p <= limit } else { p >= limit };
        assert((t as u128) * (p as u128) <= 0xffff_ffff_ffff_ffffu128 * 0xffff_ffff_ffff_ffffu128)
            by (nonlinear_arith)
            requires
                t <= 0xffff_ffff_ffff_ffffu64,
                p <= 0xffff_ffff_ffff_ffffu64,
        ;
        let cost: u128 = (t as u128) * (p as u128);
        let affordable = match funds {
            Some(b) => cost <= b as u128,
            None => true,
        };
        if t == 0 || !crossing || !affordable {
            assert(trades@ + Seq::<Trade>::empty() =~= trades@);
            break;
        }
        let next_funds = match funds {
            Some(b) => Some(b - cost as u64),
            None => None,
        };
        let head = take_head_exec(levels, t);
        let trade = if buy {
            Trade { from: head.username.clone(), to: taker.clone(), trade_qty: t, trade_price: p, stock_type: head.stock_type }
        } else {
            Trade { from: taker.clone(), to: head.username.clone(), trade_qty: t, trade_price: p, stock_type: head.stock_type }
        };
        let ghost before = trades@;
        trades.push(trade);
        left = left - t;
        funds = next_funds;
        proof {
            let f = fill(levels_view(levels@), *taker, buy, limit, left, funds);
            assert(trade == trade_of(head, *taker, buy, t, p));
            assert(before + (seq![trade] + f.0) =~= trades@ + f.0);
        }
    }
    (trades, left, funds)
}


/// What a limit order leaves resting on its own side: nothing when it filled whole.
pub open spec fn rest_left(ls: Seq<(u64, Seq<Order>)>, o: Order, left: u64, desc: bool) -> Seq<
    (u64, Seq<Order>),
> {
    if left > 0 {
        rest_insert(ls, with_quantity(o, left), desc)
    } else {
        ls
    }
}

/// The funds that a buy of `q` units at price `p` locks, as reported when they
/// are missing.
pub open spec fn required_funds(p: u64, q: u64) -> u64 {
    capped_sum(0, p * q)
}

/// The account after a limit order locks what it needs: price x quantity of the
/// balance for a buy, the quantity of the stock for a sell.
pub open spec fn limit_lock(a: Account, order: Order) -> Account {
    match order.ordertype {
        Ordertype::Buy => with_balance(a, (a.balance - order.price * order.quantity) as u64),
        Ordertype::Sell => with_stock(
            a,
            order.market_id@,
            order.stock_type,
            (held(a, order.market_id@, order.stock_type) - order.quantity) as u64,
        ),
    }
}

/// Why a limit order is refused, if it is.
pub open spec fn limit_refusal(a: Account, order: Order) -> Option<ExchangeError> {
    match order.ordertype {
        Ordertype::Buy => if a.balance < order.price * order.quantity {
            Some(
                ExchangeError::InsufficientFunds {
                    required: required_funds(order.price, order.quantity),
                    available: a.balance,
                },
            )
        } else {
            None
        },
        Ordertype::Sell => {
            let have = held(a, order.market_id@, order.stock_type);
            if have < order.quantity {
                Some(ExchangeError::InsufficientStock { required: order.quantity, available: have })
            } else {
                None
            }
        },
    }
}

/// The matching that a limit order makes against the opposite side of `b`.
pub open spec fn limit_fill(b: OrderBook, order: Order) -> (
    Seq<Trade>,
    Seq<(u64, Seq<Order>)>,
    u64,
    Option<u64>,
) {
    match order.ordertype {
        Ordertype::Buy => fill(b.sell_view(), order.username, true, order.price, order.quantity, None),
        Ordertype::Sell => fill(b.buy_view(), order.username, false, order.price, order.quantity, None),
    }
}

/// The sides of `b1` are what the limit order `order` makes of the book `b0`
/// once it is accepted.
pub open spec fn limit_book_after(b0: OrderBook, b1: OrderBook, order: Order) -> bool {
    let f = limit_fill(b0, order);
    match order.ordertype {
        Ordertype::Buy => {
            &&& b1.sell_view() == f.1
            &&& b1.buy_view() == rest_left(b0.buy_view(), order, f.2, true)
        },
        Ordertype::Sell => {
            &&& b1.buy_view() == f.1
            &&& b1.sell_view() == rest_left(b0.sell_view(), order, f.2, false)
        },
    }
}

/// The book `b1` and the account of `u1` are what the limit order `order` of the
/// user `u0` makes of the book `b0`, and `r` is its result.
pub open spec fn limit_placed(
    b0: OrderBook,
    b1: OrderBook,
    u0: User,
    u1: User,
    order: Order,
    r: Result<Vec<Trade>, ExchangeError>,
) -> bool {
    match limit_refusal(u0.account(), order) {
        Some(e) => r == Err::<Vec<Trade>, ExchangeError>(e) && b1 == b0 && u1 == u0,
        None => {
            &&& r is Ok
            &&& r->Ok_0@ == limit_fill(b0, order).0
            &&& u1.username == u0.username
            &&& u1.account() == limit_lock(u0.account(), order)
            &&& limit_book_after(b0, b1, order)
        },
    }
}

/// The matching that a market order makes: a buy against the sell side of `b`,
/// paid from `balance`; a sell against its buy side.
pub open spec fn market_fill(b: OrderBook, taker: String, side: Ordertype, qty: u64, balance: u64) -> (
    Seq<Trade>,
    Seq<(u64, Seq<Order>)>,
    u64,
    Option<u64>,
) {
    match side {
        Ordertype::Buy => fill(b.sell_view(), taker, true, u64::MAX, qty, Some(balance)),
        Ordertype::Sell => fill(b.buy_view(), taker, false, 0, qty, None),
    }
}

/// Why a market order is refused, if it is: only a sell, for want of stock.
pub open spec fn market_refusal(a: Account, side: Ordertype, qty: u64, m: Seq<char>, s: StockType) -> Option<
    ExchangeError,
> {
    if side == Ordertype::Sell && held(a, m, s) < qty {
        Some(ExchangeError::InsufficientStock { required: qty, available: held(a, m, s) })
    } else {
        None
    }
}

/// The account after an accepted market order: a buy has paid for its fills, a
/// sell has locked its whole quantity.
pub open spec fn market_account_after(
    a: Account,
    b0: OrderBook,
    taker: String,
    side: Ordertype,
    qty: u64,
    m: Seq<char>,
    s: StockType,
) -> Account {
    match side {
        Ordertype::Buy => with_balance(
            a,
            match market_fill(b0, taker, side, qty, a.balance).3 {
                Some(x) => x,
                None => a.balance,
            },
        ),
        Ordertype::Sell => with_stock(a, m, s, (held(a, m, s) - qty) as u64),
    }
}

/// The sides of `b1` are what an accepted market order makes of the book `b0`.
pub open spec fn market_book_after(
    b0: OrderBook,
    b1: OrderBook,
    taker: String,
    side: Ordertype,
    qty: u64,
    balance: u64,
) -> bool {
    let f = market_fill(b0, taker, side, qty, balance);
    match side {
        Ordertype::Buy => b1.sell_view() == f.1 && b1.buy_view() == b0.buy_view(),
        Ordertype::Sell => b1.buy_view() == f.1 && b1.sell_view() == b0.sell_view(),
    }
}

/// The book `b1` and the account of `u1` are what the market order of `taker`
/// (user `u0`) for `qty` units of stock `s` of market `m` makes of the book `b0`,
/// and `r` is its result.
pub open spec fn market_executed(
    b0: OrderBook,
    b1: OrderBook,
    u0: User,
    u1: User,
    taker: String,
    side: Ordertype,
    qty: u64,
    m: Seq<char>,
    s: StockType,
    r: Result<Vec<Trade>, ExchangeError>,
) -> bool {
    match market_refusal(u0.account(), side, qty, m, s) {
        Some(e) => r == Err::<Vec<Trade>, ExchangeError>(e) && b1 == b0 && u1 == u0,
        None => {
            &&& r is Ok
            &&& r->Ok_0@ == market_fill(b0, taker, side, qty, u0.balance).0
            &&& u1.username == u0.username
            &&& u1.account() == market_account_after(u0.account(), b0, taker, side, qty, m, s)
            &&& market_book_after(b0, b1, taker, side, qty, u0.balance)
        },
    }
}

pub proof fn lemma_take_head_wf(ls: Seq<(u64, Seq<Order>)>, desc: bool, t: u64)
    requires
        side_wf(ls, desc),
        ls.len() > 0,
        0 < t,
    ensures
        side_wf(take_head(ls, t), desc),
{
    let r = take_head(ls, t);
    let head = ls[0].1[0];
    assert(ls[0].1.len() > 0);
    if head.quantity > t {
        assert forall|i: int, k: int| 0 <= i < r.len() && 0 <= k < r[i].1.len() implies (#[trigger] r[i].1[k]).quantity
            > 0 && r[i].1[k].price == r[i].0 by {
            if i > 0 {
                assert(r[i] == ls[i]);
            } else if k > 0 {
                assert(r[0].1[k] == ls[0].1[k]);
            }
        }
        assert forall|i: int, j: int| #![trigger r[i], r[j]] 0 <= i < j < r.len() implies ahead(r[i].0, r[j].0, desc) by {
            assert(ahead(ls[i].0, ls[j].0, desc));
        }
        assert forall|i: int| 0 <= i < r.len() implies (#[trigger] r[i]).1.len() > 0 by {
            assert(ls[i].1.len() > 0);
        }
    } else if ls[0].1.len() > 1 {
        assert forall|i: int, k: int| 0 <= i < r.len() && 0 <= k < r[i].1.len() implies (#[trigger] r[i].1[k]).quantity
            > 0 && r[i].1[k].price == r[i].0 by {
            if i > 0 {
                assert(r[i] == ls[i]);
            } else {
                assert(r[0].1[k] == ls[0].1[k + 1]);
            }
        }
        assert forall|i: int, j: int| #![trigger r[i], r[j]] 0 <= i < j < r.len() implies ahead(r[i].0, r[j].0, desc) by {
            assert(ahead(ls[i].0, ls[j].0, desc));
        }
        assert forall|i: int| 0 <= i < r.len() implies (#[trigger] r[i]).1.len() > 0 by {
            assert(ls[i].1.len() > 0);
        }
    } else {
        assert forall|i: int, k: int| 0 <= i < r.len() && 0 <= k < r[i].1.len() implies (#[trigger] r[i].1[k]).quantity
            > 0 && r[i].1[k].price == r[i].0 by {
            assert(r[i] == ls[i + 1]);
        }
        assert forall|i: int, j: int| #![trigger r[i], r[j]] 0 <= i < j < r.len() implies ahead(r[i].0, r[j].0, desc) by {
            assert(ahead(ls[i + 1].0, ls[j + 1].0, desc));
        }
        assert forall|i: int| 0 <= i < r.len() implies (#[trigger] r[i]).1.len() > 0 by {
            assert(ls[i + 1].1.len() > 0);
        }
    }
}

/// Matching keeps a side well formed.
pub proof fn lemma_fill_wf(
    ls: Seq<(u64, Seq<Order>)>,
    desc: bool,
    taker: String,
    buy: bool,
    limit: u64,
    qty: u64,
    budget: Option<u64>,
)
    requires
        side_wf(ls, desc),
    ensures
        side_wf(fill(ls, taker, buy, limit, qty, budget).1, desc),
    decreases qty,
{
    if qty > 0 && ls.len() > 0 && ls[0].1.len() > 0 {
        let head = ls[0].1[0];
        let p = ls[0].0;
        let t: u64 = if qty <= head.quantity { qty } else { head.quantity };
        let next_budget = match budget {
            Some(b) => Some((b - t * p) as u64),
            None => None,
        };
        if t > 0 {
            lemma_take_head_wf(ls, desc, t);
            lemma_fill_wf(take_head(ls, t), desc, taker, buy, limit, (qty - t) as u64, next_budget);
        }
    }
}

proof fn lemma_rest_insert_bound(ls: Seq<(u64, Seq<Order>)>, o: Order, desc: bool, x: u64)
    requires
        ahead(x, o.price, desc),
        forall|i: int| 0 <= i < ls.len() ==> ahead(x, (#[trigger] ls[i]).0, desc),
    ensures
        forall|j: int|
            0 <= j < rest_insert(ls, o, desc).len() ==> ahead(x, (#[trigger] rest_insert(ls, o, desc)[j]).0, desc),
    decreases ls.len(),
{
    let r = rest_insert(ls, o, desc);
    if ls.len() > 0 && ls[0].0 != o.price && ahead(ls[0].0, o.price, desc) {
        let d = ls.drop_first();
        assert forall|i: int| 0 <= i < d.len() implies ahead(x, (#[trigger] d[i]).0, desc) by {
            assert(d[i] == ls[i + 1]);
        }
        lemma_rest_insert_bound(d, o, desc, x);
        assert forall|j: int| 0 <= j < r.len() implies ahead(x, (#[trigger] r[j]).0, desc) by {
            if j > 0 {
                assert(r[j] == rest_insert(d, o, desc)[j - 1]);
            }
        }
    } else if ls.len() > 0 && ls[0].0 != o.price {
        assert forall|j: int| 0 <= j < r.len() implies ahead(x, (#[trigger] r[j]).0, desc) by {
            if j > 0 {
                assert(r[j] == ls[j - 1]);
            }
        }
    } else if ls.len() > 0 {
        assert forall|j: int| 0 <= j < r.len() implies ahead(x, (#[trigger] r[j]).0, desc) by {
            if j > 0 {
                assert(r[j] == ls[j]);
            }
        }
    }
}

/// Resting an order with quantity left keeps a side well formed.
pub proof fn lemma_rest_insert_wf(ls: Seq<(u64, Seq<Order>)>, o: Order, desc: bool)
    requires
        side_wf(ls, desc),
        o.quantity > 0,
    ensures
        side_wf(rest_insert(ls, o, desc), desc),
    decreases ls.len(),
{
    let r = rest_insert(ls, o, desc);
    if ls.len() == 0 {
        assert(r[0].1[0] == o);
    } else if ls[0].0 == o.price {
        assert forall|i: int, k: int| 0 <= i < r.len() && 0 <= k < r[i].1.len() implies (#[trigger] r[i].1[k]).quantity
            > 0 && r[i].1[k].price == r[i].0 by {
            if i > 0 {
                assert(r[i] == ls[i]);
            } else if k < ls[0].1.len() {
                assert(r[0].1[k] == ls[0].1[k]);
            }
        }
        assert forall|i: int, j: int| #![trigger r[i], r[j]] 0 <= i < j < r.len() implies ahead(r[i].0, r[j].0, desc) by {
            assert(ahead(ls[i].0, ls[j].0, desc));
        }
        assert forall|i: int| 0 <= i < r.len() implies (#[trigger] r[i]).1.len() > 0 by {
            assert(ls[i].1.len() > 0);
        }
    } else if ahead(ls[0].0, o.price, desc) {
        let d = ls.drop_first();
        assert(side_wf(d, desc)) by {
            assert forall|i: int, j: int| #![trigger d[i], d[j]] 0 <= i < j < d.len() implies ahead(d[i].0, d[j].0, desc) by {
                assert(ahead(ls[i + 1].0, ls[j + 1].0, desc));
            }
            assert forall|i: int| 0 <= i < d.len() implies (#[trigger] d[i]).1.len() > 0 by {
                assert(ls[i + 1].1.len() > 0);
            }
            assert forall|i: int, k: int| 0 <= i < d.len() && 0 <= k < d[i].1.len() implies (#[trigger] d[i].1[k]).quantity
                > 0 && d[i].1[k].price == d[i].0 by {
                assert(d[i] == ls[i + 1]);
            }
        }
        lemma_rest_insert_wf(d, o, desc);
        assert forall|i: int| 0 <= i < d.len() implies ahead(ls[0].0, (#[trigger] d[i]).0, desc) by {
            assert(ahead(ls[0].0, ls[i + 1].0, desc));
        }
        lemma_rest_insert_bound(d, o, desc, ls[0].0);
        let rd = rest_insert(d, o, desc);
        assert(r == seq![ls[0]] + rd);
        assert forall|i: int, j: int| #![trigger r[i], r[j]] 0 <= i < j < r.len() implies ahead(r[i].0, r[j].0, desc) by {
            assert(r[j] == rd[j - 1]);
            if i > 0 {
                assert(r[i] == rd[i - 1]);
            }
        }
        assert forall|i: int| 0 <= i < r.len() implies (#[trigger] r[i]).1.len() > 0 by {
            if i > 0 {
                assert(r[i] == rd[i - 1]);
            }
        }
        assert forall|i: int, k: int| 0 <= i < r.len() && 0 <= k < r[i].1.len() implies (#[trigger] r[i].1[k]).quantity
            > 0 && r[i].1[k].price == r[i].0 by {
            if i > 0 {
                assert(r[i] == rd[i - 1]);
            }
        }
    } else {
        assert(r == seq![(o.price, seq![o])] + ls);
        assert forall|i: int, j: int| #![trigger r[i], r[j]] 0 <= i < j < r.len() implies ahead(r[i].0, r[j].0, desc) by {
            assert(r[j] == ls[j - 1]);
            if i > 0 {
                assert(r[i] == ls[i - 1]);
                assert(ahead(ls[i - 1].0, ls[j - 1].0, desc));
            } else if j > 1 {
                assert(ahead(ls[0].0, ls[j - 1].0, desc));
            }
        }
        assert forall|i: int| 0 <= i < r.len() implies (#[trigger] r[i]).1.len() > 0 by {
            if i > 0 {
                assert(r[i] == ls[i - 1]);
                assert(ls[i - 1].1.len() > 0);
            }
        }
        assert forall|i: int, k: int| 0 <= i < r.len() && 0 <= k < r[i].1.len() implies (#[trigger] r[i].1[k]).quantity
            > 0 && r[i].1[k].price == r[i].0 by {
            if i > 0 {
                assert(r[i] == ls[i - 1]);
            }
        }
    }
}

impl PriceLevel {
    /// A copy of this level and its orders.
    pub fn copy(&self) -> (r: PriceLevel)
        ensures
            r.price == self.price,
            r.orders@ == self.orders@,
    {
        let mut orders: Vec<Order> = Vec::new();
        let mut k: usize = 0;
        while k < self.orders.len()
            invariant
                k <= self.orders.len(),
                orders@ == self.orders@.subrange(0, k as int),
            decreases self.orders.len() - k,
        {
            orders.push(self.orders[k].copy());
            k = k + 1;
            assert(orders@ =~= self.orders@.subrange(0, k as int));
        }
        assert(self.orders@.subrange(0, k as int) =~= self.orders@);
        PriceLevel { price: self.price, orders }
    }
}

/// A copy of a side.
fn copy_levels(ls: &Vec<PriceLevel>) -> (r: Vec<PriceLevel>)
    ensures
        levels_view(r@) == levels_view(ls@),
{
    let mut out: Vec<PriceLevel> = Vec::new();
    let mut k: usize = 0;
    while k < ls.len()
        invariant
            k <= ls.len(),
            levels_view(out@) == levels_view(ls@).subrange(0, k as int),
        decreases ls.len() - k,
    {
        let ghost before = out@;
        let c = ls[k].copy();
        out.push(c);
        proof {
            assert(out@ == before.push(c));
            assert(levels_view(out@) =~= levels_view(before).push((c.price, c.orders@)));
            assert(levels_view(ls@)[k as int] == (ls@[k as int].price, ls@[k as int].orders@));
            assert(levels_view(out@) =~= levels_view(ls@).subrange(0, k + 1));
        }
        k = k + 1;
    }
    assert(levels_view(ls@).subrange(0, k as int) =~= levels_view(ls@));
    out
}

impl OrderBook {
    /// The buy side, best (highest) price first.
    pub open spec fn buy_view(&self) -> Seq<(u64, Seq<Order>)> {
        levels_view(self.buy@)
    }

    /// The sell side, best (lowest) price first.
    pub open spec fn sell_view(&self) -> Seq<(u64, Seq<Order>)> {
        levels_view(self.sell@)
    }

    pub open spec fn wf(&self) -> bool {
        side_wf(self.buy_view(), true) && side_wf(self.sell_view(), false)
    }

    pub fn new() -> (r: OrderBook)
        ensures
            r.buy@.len() == 0,
            r.sell@.len() == 0,
            r.wf(),
    {
        OrderBook { buy: Vec::new(), sell: Vec::new() }
    }

    /// A copy of this book.
    pub fn snapshot(&self) -> (r: OrderBook)
        ensures
            r.buy_view() == self.buy_view(),
            r.sell_view() == self.sell_view(),
    {
        OrderBook { buy: copy_levels(&self.buy), sell: copy_levels(&self.sell) }
    }

    /// Rests an order of `username` for `quantity` units of `stock_type` at `price`
    /// on the side of `ordertype`, stamped with the current time, without matching.
    pub fn add_new_order(
        &mut self,
        price: u64,
        quantity: u64,
        stock_type: StockType,
        ordertype: Ordertype,
        username: String,
    )
        ensures
            exists|o: Order|
                {
                    &&& o.price == price
                    &&& o.quantity == quantity
                    &&& o.stock_type == stock_type
                    &&& o.username == username
                    &&& o.ordertype == ordertype
                    &&& o.market_id@.len() == 0
                    &&& match ordertype {
                        Ordertype::Buy => {
                            &&& final(self).buy_view() == rest_insert(old(self).buy_view(), o, true)
                            &&& final(self).sell_view() == old(self).sell_view()
                        },
                        Ordertype::Sell => {
                            &&& final(self).sell_view() == rest_insert(old(self).sell_view(), o, false)
                            &&& final(self).buy_view() == old(self).buy_view()
                        },
                    }
                },
            old(self).wf() && quantity > 0 ==> final(self).wf(),
    {
        let o = Order {
            price,
            quantity,
            stock_type,
            username,
            timestamp: now_millis(),
            ordertype,
            market_id: String::new(),
        };
        let ghost og = o;
        proof {
            if old(self).wf() && quantity > 0 {
                lemma_rest_insert_wf(old(self).buy_view(), o, true);
                lemma_rest_insert_wf(old(self).sell_view(), o, false);
            }
        }
        match ordertype {
            Ordertype::Buy => {
                rest_order(&mut self.buy, o, true);
                assert(self.buy_view() == rest_insert(old(self).buy_view(), og, true));
                assert(self.sell_view() == old(self).sell_view());
            },
            Ordertype::Sell => {
                rest_order(&mut self.sell, o, false);
                assert(self.sell_view() == rest_insert(old(self).sell_view(), og, false));
                assert(self.buy_view() == old(self).buy_view());
            },
        }
        assert(og.market_id@.len() == 0);
        assert(og.username == username);
    }

    /// Places the limit order `order` of `user`, whose account it draws on.
    ///
    /// A buy locks price x quantity of the balance first (`InsufficientFunds` where
    /// the balance is short), then fills against the sell side at the resting
    /// prices, lowest first, while they are at most its price. A sell locks its
    /// quantity of the stock held in its market first (`InsufficientStock` where the
    /// holding is short), then fills against the buy side, highest first, while the
    /// prices are at least its own. What is left of the order rests on its side.
    /// Gives the trades made, in order; on a refusal nothing changes.
    pub fn add_limit_order(&mut self, order: Order, user: &mut User) -> (r: Result<
        Vec<Trade>,
        ExchangeError,
    >)
        ensures
            limit_placed(*old(self), *final(self), *old(user), *final(user), order, r),
            old(self).wf() ==> final(self).wf(),
    {
        let price = order.price;
        let quantity = order.quantity;
        match order.ordertype {
            Ordertype::Buy => {
                assert((price as u128) * (quantity as u128) <= 0xffff_ffff_ffff_ffffu128
                    * 0xffff_ffff_ffff_ffffu128) by (nonlinear_arith)
                    requires
                        price <= 0xffff_ffff_ffff_ffffu64,
                        quantity <= 0xffff_ffff_ffff_ffffu64,
                ;
                let product: u128 = (price as u128) * (quantity as u128);
                if (user.balance as u128) < product {
                    let required = if product > 0xffff_ffff_ffff_ffffu128 {
                        0xffff_ffff_ffff_ffffu64
                    } else {
                        product as u64
                    };
                    return Err(ExchangeError::InsufficientFunds { required, available: user.balance });
                }
                user.balance = user.balance - product as u64;
                let (trades, left, _) = fill_levels(&mut self.sell, &order.username, true, price, quantity, None);
                proof {
                    if old(self).wf() {
                        lemma_fill_wf(old(self).sell_view(), false, order.username, true, price, quantity, None);
                    }
                }
                if left > 0 {
                    let mut rest = order;
                    rest.quantity = left;
                    proof {
                        if old(self).wf() {
                            lemma_rest_insert_wf(old(self).buy_view(), rest, true);
                        }
                    }
                    rest_order(&mut self.buy, rest, true);
                }
                Ok(trades)
            },
            Ordertype::Sell => {
                let have = match order.stock_type {
                    StockType::StockA => user.holding_of(&order.market_id).stock_a,
                    StockType::StockB => user.holding_of(&order.market_id).stock_b,
                };
                if have < quantity {
                    return Err(ExchangeError::InsufficientStock { required: quantity, available: have });
                }
                lock_stock(user, &order.market_id, order.stock_type, quantity);
                let (trades, left, _) = fill_levels(&mut self.buy, &order.username, false, price, quantity, None);
                proof {
                    if old(self).wf() {
                        lemma_fill_wf(old(self).buy_view(), true, order.username, false, price, quantity, None);
                    }
                }
                if left > 0 {
                    let mut rest = order;
                    rest.quantity = left;
                    proof {
                        if old(self).wf() {
                            lemma_rest_insert_wf(old(self).sell_view(), rest, false);
                        }
                    }
                    rest_order(&mut self.sell, rest, false);
                }
                Ok(trades)
            },
        }
    }

    /// Executes a market order of `username` for `quantity` units of `stock_type`
    /// in market `market_id`, drawing on the account `user`. It never rests.
    ///
    /// A buy takes the sell side, lowest price first, and pays for each fill as it
    /// goes; it stops at the first fill that the balance cannot pay for. A sell
    /// locks the whole quantity of the stock first (`InsufficientStock` where the
    /// holding is short), then fills against the buy side, highest price first.
    /// What finds no counterpart is dropped. Gives the trades made, in order; on a
    /// refusal nothing changes.
    pub fn execute_market_order(
        &mut self,
        username: String,
        ordertype: Ordertype,
        quantity: u64,
        user: &mut User,
        market_id: String,
        stock_type: StockType,
    ) -> (r: Result<Vec<Trade>, ExchangeError>)
        ensures
            market_executed(
                *old(self),
                *final(self),
                *old(user),
                *final(user),
                username,
                ordertype,
                quantity,
                market_id@,
                stock_type,
                r,
            ),
            old(self).wf() ==> final(self).wf(),
    {
        proof {
            if old(self).wf() {
                lemma_fill_wf(old(self).sell_view(), false, username, true, u64::MAX, quantity, Some(old(user).balance));
                lemma_fill_wf(old(self).buy_view(), true, username, false, 0, quantity, None);
            }
        }
        match ordertype {
            Ordertype::Buy => {
                let (trades, _, funds) = fill_levels(
                    &mut self.sell,
                    &username,
                    true,
                    0xffff_ffff_ffff_ffffu64,
                    quantity,
                    Some(user.balance),
                );
                proof {
                    lemma_fill_keeps_budget(
                        levels_view(old(self).sell@),
                        username,
                        true,
                        u64::MAX,
                        quantity,
                        Some(old(user).balance),
                    );
                }
                match funds {
                    Some(b) => {
                        user.balance = b;
                    },
                    None => {},
                }
                Ok(trades)
            },
            Ordertype::Sell => {
                let have = match stock_type {
                    StockType::StockA => user.holding_of(&market_id).stock_a,
                    StockType::StockB => user.holding_of(&market_id).stock_b,
                };
                if have < quantity {
                    return Err(ExchangeError::InsufficientStock { required: quantity, available: have });
                }
                lock_stock(user, &market_id, stock_type, quantity);
                let (trades, _, _) = fill_levels(&mut self.buy, &username, false, 0, quantity, None);
                Ok(trades)
            },
        }
    }
}

/// Matching with a budget leaves a budget.
pub proof fn lemma_fill_keeps_budget(
    ls: Seq<(u64, Seq<Order>)>,
    taker: String,
    buy: bool,
    limit: u64,
    qty: u64,
    budget: Option<u64>,
)
    ensures
        budget is Some ==> fill(ls, taker, buy, limit, qty, budget).3 is Some,
    decreases qty,
{
    if qty > 0 && ls.len() > 0 && ls[0].1.len() > 0 {
        let head = ls[0].1[0];
        let p = ls[0].0;
        let t: u64 = if qty <= head.quantity { qty } else { head.quantity };
        let next_budget = match budget {
            Some(b) => Some((b - t * p) as u64),
            None => None,
        };
        if t > 0 {
            lemma_fill_keeps_budget(take_head(ls, t), taker, buy, limit, (qty - t) as u64, next_budget);
        }
    }
}

/// Takes `q` units of stock `s` of market `m` out of the holdings of `user`.
pub(crate) fn lock_stock(user: &mut User, m: &String, s: StockType, q: u64)
    requires
        held(old(user).account(), m@, s) >= q,
    ensures
        final(user).username == old(user).username,
        final(user).account() == with_stock(
            old(user).account(),
            m@,
            s,
            (held(old(user).account(), m@, s) - q) as u64,
        ),
{
    let ghost h = user.holding(m@);
    let ghost mid = user.holdings_map();
    let i = user.holding_slot(m);
    let mut e = user.holdings[i].1;
    match s {
        StockType::StockA => e.stock_a = e.stock_a - q,
        StockType::StockB => e.stock_b = e.stock_b - q,
    }
    let ghost pairs = holdings_pairs(user.holdings@);
    user.holdings[i].1 = e;
    proof {
        lemma_keyed_update(pairs, i as int, e);
        assert(holdings_pairs(user.holdings@) =~= pairs.update(i as int, (pairs[i as int].0, e)));
        assert(e == set_stock(h, s, (stock_of(h, s) - q) as u64));
        assert(user.holdings_map() =~= mid.insert(m@, e));
        assert(user.account() == with_stock(old(user).account(), m@, s, (stock_of(h, s) - q) as u64));
    }
}

} // verus!
