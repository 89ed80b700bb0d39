//! Properties that hold of matching, settlement and minting, for all inputs.

use crate::book::{fill, lemma_take_head_wf, limit_lock, limit_refusal, side_wf, take_head, trade_of};
use crate::exchange::{
    limit_order_done, merge_account, pairs_held, settle, settle_one, split_account, Exchange,
};
use crate::types::{
    held, holding_in, with_quantity, Account, ExchangeError, Order, Ordertype, StockType, Trade,
};
use vstd::prelude::*;

verus! {

/// The units that the trades `ts` move.
pub open spec fn units(ts: Seq<Trade>) -> int
    decreases ts.len(),
{
    if ts.len() == 0 {
        0
    } else {
        ts[0].trade_qty + units(ts.drop_first())
    }
}

/// What the buyers of the trades `ts` pay their sellers: price x quantity of each.
pub open spec fn cost(ts: Seq<Trade>) -> int
    decreases ts.len(),
{
    if ts.len() == 0 {
        0
    } else {
        ts[0].trade_price * ts[0].trade_qty + cost(ts.drop_first())
    }
}

/// What a buyer with limit `limit` gets back on the trades `ts`: per unit, what
/// the limit exceeds the price.
pub open spec fn rebates(ts: Seq<Trade>, limit: u64) -> int
    decreases ts.len(),
{
    if ts.len() == 0 {
        0
    } else {
        (limit - ts[0].trade_price) * ts[0].trade_qty + rebates(ts.drop_first(), limit)
    }
}

/// The resting order that a trade filled: its seller where the incoming order
/// bought, its buyer where it sold.
pub open spec fn maker_of(t: Trade, buy: bool) -> String {
    if buy {
        t.from
    } else {
        t.to
    }
}

proof fn lemma_prepend<A>(x: A, s: Seq<A>)
    ensures
        (seq![x] + s).len() > 0,
        (seq![x] + s)[0] == x,
        (seq![x] + s).drop_first() == s,
{
    assert((seq![x] + s).drop_first() =~= s);
}

/// Minting `n` pairs and then redeeming `n` pairs gives back the balance and the
/// holdings of every market as they were, where the holdings did not reach
/// `u64::MAX` on the way; the redemption is always accepted.
pub proof fn lemma_split_merge_round_trip(a: Account, m: Seq<char>, n: u64)
    requires
        a.balance >= n,
        held(a, m, StockType::StockA) + n <= u64::MAX,
        held(a, m, StockType::StockB) + n <= u64::MAX,
    ensures
        pairs_held(split_account(a, m, n), m) >= n,
        merge_account(split_account(a, m, n), m, n).balance == a.balance,
        merge_account(split_account(a, m, n), m, n).password == a.password,
        forall|k: Seq<char>|
            holding_in(#[trigger] merge_account(split_account(a, m, n), m, n).holdings, k) == holding_in(
                a.holdings,
                k,
            ),
{
}

/// Every trade of an incoming buy is at a price no higher than its limit, and
/// every trade of an incoming sell at a price no lower than its limit.
pub proof fn lemma_fill_within_limit(
    ls: Seq<(u64, Seq<Order>)>,
    taker: String,
    buy: bool,
    limit: u64,
    qty: u64,
    budget: Option<u64>,
)
    ensures
        forall|k: int|
            0 <= k < fill(ls, taker, buy, limit, qty, budget).0.len() ==> if buy {
                (#[trigger] fill(ls, taker, buy, limit, qty, budget).0[k]).trade_price <= limit
            } else {
                fill(ls, taker, buy, limit, qty, budget).0[k].trade_price >= limit
            },
    decreases qty,
{
    if qty > 0 && ls.len() > 0 && ls[0].1.len() > 0 {
        let head = ls[0].1[0];
        let p = ls[0].0;
        let t: u64 = if qty <= head.quantity { qty } else { head.quantity };
        let next_budget = match budget {
            Some(b) => Some((b - t * p) as u64),
            None => None,
        };
        if t > 0 {
            let r = fill(take_head(ls, t), taker, buy, limit, (qty - t) as u64, next_budget);
            lemma_fill_within_limit(take_head(ls, t), taker, buy, limit, (qty - t) as u64, next_budget);
            let tr = trade_of(head, taker, buy, t, p);
            assert forall|k: int| 0 < k < (seq![tr] + r.0).len() implies (seq![tr] + r.0)[k] == r.0[k - 1] by {}
        }
    }
}

/// A limit buy of `qty` units at `limit` conserves value: the `limit` x `qty` that
/// it locks is what its sellers receive, plus what it gets back as rebates, plus
/// what stays locked for the quantity left resting; and the units it buys are
/// `qty` less that quantity.
pub proof fn lemma_limit_buy_conserves(ls: Seq<(u64, Seq<Order>)>, taker: String, limit: u64, qty: u64)
    ensures
        ({
            let f = fill(ls, taker, true, limit, qty, None);
            &&& limit * qty == cost(f.0) + rebates(f.0, limit) + limit * f.2
            &&& units(f.0) + f.2 == qty
        }),
    decreases qty,
{
    let f = fill(ls, taker, true, limit, qty, None);
    if qty > 0 && ls.len() > 0 && ls[0].1.len() > 0 {
        let head = ls[0].1[0];
        let p = ls[0].0;
        let t: u64 = if qty <= head.quantity { qty } else { head.quantity };
        if t > 0 && p <= limit {
            let q2 = (qty - t) as u64;
            let r = fill(take_head(ls, t), taker, true, limit, q2, None);
            lemma_limit_buy_conserves(take_head(ls, t), taker, limit, q2);
            let tr = trade_of(head, taker, true, t, p);
            lemma_prepend(tr, r.0);
            assert(f.0 == seq![tr] + r.0);
            assert(limit * qty == p * t + (limit - p) * t + limit * q2) by (nonlinear_arith)
                requires
                    q2 == qty - t,
                    p <= limit,
            ;
        }
    }
}

/// A market buy pays for each fill from its budget as it goes and stops before
/// a fill that the budget cannot cover: what it pays never exceeds the budget, and
/// the budget left is the budget less what it paid.
pub proof fn lemma_market_buy_within_funds(
    ls: Seq<(u64, Seq<Order>)>,
    taker: String,
    qty: u64,
    balance: u64,
)
    ensures
        ({
            let f = fill(ls, taker, true, u64::MAX, qty, Some(balance));
            &&& cost(f.0) <= balance
            &&& f.3 == Some((balance - cost(f.0)) as u64)
        }),
    decreases qty,
{
    let f = fill(ls, taker, true, u64::MAX, qty, Some(balance));
    if qty > 0 && ls.len() > 0 && ls[0].1.len() > 0 {
        let head = ls[0].1[0];
        let p = ls[0].0;
        let t: u64 = if qty <= head.quantity { qty } else { head.quantity };
        if t > 0 && t * p <= balance {
            let q2 = (qty - t) as u64;
            let b2 = (balance - t * p) as u64;
            let r = fill(take_head(ls, t), taker, true, u64::MAX, q2, Some(b2));
            lemma_market_buy_within_funds(take_head(ls, t), taker, q2, b2);
            let tr = trade_of(head, taker, true, t, p);
            lemma_prepend(tr, r.0);
            assert(f.0 == seq![tr] + r.0);
            assert(p * t == t * p) by (nonlinear_arith);
            assert(cost(f.0) == t * p + cost(r.0));
        }
    }
}

/// The resting orders of a side in the order they fill: level by level, best
/// first, and oldest first within a level.
pub open spec fn queue(ls: Seq<(u64, Seq<Order>)>) -> Seq<Order>
    decreases ls.len(),
{
    if ls.len() == 0 {
        Seq::empty()
    } else {
        ls[0].1 + queue(ls.drop_first())
    }
}

proof fn lemma_queue_take_head(ls: Seq<(u64, Seq<Order>)>, t: u64)
    requires
        ls.len() > 0,
        ls[0].1.len() > 0,
    ensures
        queue(ls).len() > 0,
        queue(ls)[0] == ls[0].1[0],
        ls[0].1[0].quantity > t ==> queue(take_head(ls, t)) == queue(ls).update(
            0,
            with_quantity(ls[0].1[0], (ls[0].1[0].quantity - t) as u64),
        ),
        ls[0].1[0].quantity <= t ==> queue(take_head(ls, t)) == queue(ls).drop_first(),
{
    let q = ls[0].1;
    let d = ls.drop_first();
    assert(queue(ls) == q + queue(d));
    let head = q[0];
    if head.quantity > t {
        let x = with_quantity(head, (head.quantity - t) as u64);
        let l2 = ls.update(0, (ls[0].0, q.update(0, x)));
        assert(l2.drop_first() =~= d);
        assert(queue(l2) == q.update(0, x) + queue(d));
        assert(q.update(0, x) + queue(d) =~= (q + queue(d)).update(0, x));
    } else if q.len() > 1 {
        let l2 = ls.update(0, (ls[0].0, q.drop_first()));
        assert(l2.drop_first() =~= d);
        assert(queue(l2) == q.drop_first() + queue(d));
        assert(q.drop_first() + queue(d) =~= (q + queue(d)).drop_first());
    } else {
        assert(q.drop_first() + queue(d) =~= (q + queue(d)).drop_first());
        assert(q.drop_first() =~= Seq::<Order>::empty());
        assert(Seq::<Order>::empty() + queue(d) =~= queue(d));
    }
}

/// Orders fill by price-time priority across the whole side: the k-th trade
/// fills the k-th order of the side's queue (best price first, oldest first
/// within a price), at that order's price, and every trade but the last takes its
/// order whole. What is left of the side is the queue without the orders filled,
/// the last of them kept with what was left of it where it was not taken whole.
pub proof fn lemma_fills_in_queue_order(
    ls: Seq<(u64, Seq<Order>)>,
    desc: bool,
    taker: String,
    buy: bool,
    limit: u64,
    qty: u64,
    budget: Option<u64>,
)
    requires
        side_wf(ls, desc),
    ensures
        ({
            let ts = fill(ls, taker, buy, limit, qty, budget).0;
            let f = queue(ls);
            &&& ts.len() <= f.len()
            &&& forall|k: int|
                0 <= k < ts.len() ==> maker_of(#[trigger] ts[k], buy) == f[k].username && ts[k].trade_price
                    == f[k].price
            &&& forall|k: int| 0 <= k < ts.len() - 1 ==> (#[trigger] ts[k]).trade_qty == f[k].quantity
        }),
    decreases qty,
{
    let ts = fill(ls, taker, buy, limit, qty, budget).0;
    if qty > 0 && ls.len() > 0 && ls[0].1.len() > 0 {
        let head = ls[0].1[0];
        let p = ls[0].0;
        assert(head.quantity > 0 && head.price == p);
        let t: u64 = if qty <= head.quantity { qty } else { head.quantity };
        let next_budget = match budget {
            Some(b) => Some((b - t * p) as u64),
            None => None,
        };
        let q2 = (qty - t) as u64;
        let tr = trade_of(head, taker, buy, t, p);
        lemma_queue_take_head(ls, t);
        lemma_take_head_wf(ls, desc, t);
        let r = fill(take_head(ls, t), taker, buy, limit, q2, next_budget);
        if head.quantity > t {
            assert(q2 == 0);
            assert(r.0.len() == 0);
        } else {
            lemma_fills_in_queue_order(take_head(ls, t), desc, taker, buy, limit, q2, next_budget);
            lemma_prepend(tr, r.0);
            let f = queue(ls);
            assert forall|k: int| 0 < k < (seq![tr] + r.0).len() implies (seq![tr] + r.0)[k] == r.0[k - 1]
                && queue(take_head(ls, t))[k - 1] == f[k] by {}
        }
    }
}

/// What matching leaves of a side is its queue without the orders filled, the
/// last of them kept with what was left of it where it was not taken whole.
#[verifier::rlimit(60)]
pub proof fn lemma_fill_leaves_queue_rest(
    ls: Seq<(u64, Seq<Order>)>,
    desc: bool,
    taker: String,
    buy: bool,
    limit: u64,
    qty: u64,
    budget: Option<u64>,
)
    requires
        side_wf(ls, desc),
    ensures
        ({
            let ts = fill(ls, taker, buy, limit, qty, budget).0;
            let f = queue(ls);
            &&& ts.len() == 0 ==> queue(fill(ls, taker, buy, limit, qty, budget).1) == f
            &&& ts.len() > 0 ==> queue(fill(ls, taker, buy, limit, qty, budget).1) == f.subrange(
                ts.len() as int,
                f.len() as int,
            ) || queue(fill(ls, taker, buy, limit, qty, budget).1) == f.subrange(
                ts.len() - 1,
                f.len() as int,
            ).update(
                0,
                with_quantity(
                    f[ts.len() - 1],
                    (f[ts.len() - 1].quantity - ts[ts.len() - 1].trade_qty) as u64,
                ),
            )
        }),
    decreases qty,
{
    if qty > 0 && ls.len() > 0 && ls[0].1.len() > 0 {
        let head = ls[0].1[0];
        let p = ls[0].0;
        let t: u64 = if qty <= head.quantity { qty } else { head.quantity };
        let next_budget = match budget {
            Some(b) => Some((b - t * p) as u64),
            None => None,
        };
        let q2 = (qty - t) as u64;
        let tr = trade_of(head, taker, buy, t, p);
        let fl = fill(ls, taker, buy, limit, qty, budget);
        let f = queue(ls);
        lemma_queue_take_head(ls, t);
        lemma_take_head_wf(ls, desc, t);
        let r = fill(take_head(ls, t), taker, buy, limit, q2, next_budget);
        if t > 0 && crate::book::crosses(p, buy, limit) && (match budget {
            Some(b) => t * p <= b,
            None => true,
        }) {
            assert(fl.0 == seq![tr] + r.0 && fl.1 == r.1);
            lemma_prepend(tr, r.0);
            if head.quantity > t {
                assert(q2 == 0);
                assert(r.1 == take_head(ls, t));
                assert(f.subrange(0, f.len() as int) =~= f);
            } else {
                lemma_fill_leaves_queue_rest(take_head(ls, t), desc, taker, buy, limit, q2, next_budget);
                lemma_fills_in_queue_order(take_head(ls, t), desc, taker, buy, limit, q2, next_budget);
                let g = queue(take_head(ls, t));
                assert(g == f.drop_first());
                let n: int = r.0.len() as int;
                assert(n <= g.len());
                assert(g.subrange(n, g.len() as int) =~= f.subrange(n + 1, f.len() as int));
                if n > 0 {
                    assert((seq![tr] + r.0)[n] == r.0[n - 1]);
                    assert(g[n - 1] == f[n]);
                    assert(g.subrange(n - 1, g.len() as int) =~= f.subrange(n, f.len() as int));
                } else {
                    assert(g =~= f.subrange(1, f.len() as int));
                }
            }
        }
    }
}

/// A market buy that stops with quantity left while the sell side still holds
/// orders stops because the budget left cannot pay for the next fill: the best
/// resting order, which stays in the book, costs more than what is left.
pub proof fn lemma_market_buy_stops_unaffordable(
    ls: Seq<(u64, Seq<Order>)>,
    taker: String,
    qty: u64,
    balance: u64,
)
    requires
        side_wf(ls, false),
    ensures
        ({
            let f = fill(ls, taker, true, u64::MAX, qty, Some(balance));
            f.2 > 0 && f.1.len() > 0 ==> {
                let head = f.1[0].1[0];
                let t = if f.2 <= head.quantity { f.2 } else { head.quantity };
                &&& f.1[0].1.len() > 0
                &&& f.3 matches Some(b) && b < t * f.1[0].0
            }
        }),
    decreases qty,
{
    if qty > 0 && ls.len() > 0 && ls[0].1.len() > 0 {
        let head = ls[0].1[0];
        let p = ls[0].0;
        let t: u64 = if qty <= head.quantity { qty } else { head.quantity };
        if t > 0 && t * p <= balance {
            lemma_take_head_wf(ls, false, t);
            lemma_market_buy_stops_unaffordable(take_head(ls, t), taker, (qty - t) as u64, (balance - t * p) as u64);
        }
    }
}

/// The worth of `a` in stock `s` of market `m` when each unit counts `r`.
pub open spec fn worth(a: Account, m: Seq<char>, s: StockType, r: int) -> int {
    a.balance + r * held(a, m, s)
}

/// Settling a trade between two users hands back exactly what their orders
/// locked: whatever worth `r` a unit is given, the two accounts together gain
/// the trade's price x quantity (locked from the buyer) and its quantity of the
/// stock (locked from the seller), where no sum reaches `u64::MAX`; every other
/// account is unchanged.
pub proof fn lemma_settlement_returns_locked(acc: Map<Seq<char>, Account>, t: Trade, m: Seq<char>, r: int)
    requires
        acc.contains_key(t.from@),
        acc.contains_key(t.to@),
        t.from@ != t.to@,
        acc[t.from@].balance + t.trade_price * t.trade_qty <= u64::MAX,
        held(acc[t.to@], m, t.stock_type) + t.trade_qty <= u64::MAX,
    ensures
        ({
            let a1 = settle_one(acc, t, m, None, false);
            let s = t.stock_type;
            &&& worth(a1[t.from@], m, s, r) + worth(a1[t.to@], m, s, r) == worth(acc[t.from@], m, s, r)
                + worth(acc[t.to@], m, s, r) + t.trade_price * t.trade_qty + r * t.trade_qty
            &&& forall|k: Seq<char>| k != t.from@ && k != t.to@ ==> #[trigger] a1.dom().contains(k) == acc.dom().contains(k)
                && (acc.contains_key(k) ==> a1[k] == acc[k])
        }),
{
    let s = t.stock_type;
    let h = held(acc[t.to@], m, s);
    let q = t.trade_qty;
    assert(r * (h + q) == r * h + r * q) by (nonlinear_arith);
}

proof fn lemma_rebates_push(ts: Seq<Trade>, x: Trade, limit: u64)
    ensures
        rebates(ts.push(x), limit) == rebates(ts, limit) + (limit - x.trade_price) * x.trade_qty,
    decreases ts.len(),
{
    if ts.len() > 0 {
        assert(ts.push(x).drop_first() =~= ts.drop_first().push(x));
        assert(ts.push(x)[0] == ts[0]);
        lemma_rebates_push(ts.drop_first(), x, limit);
        assert(rebates(ts.push(x), limit) == (limit - ts[0].trade_price) * ts[0].trade_qty + rebates(
            ts.drop_first().push(x),
            limit,
        ));
        assert(rebates(ts, limit) == (limit - ts[0].trade_price) * ts[0].trade_qty + rebates(ts.drop_first(), limit));
    } else {
        assert(ts.push(x).drop_first() =~= Seq::<Trade>::empty());
        assert(ts.push(x)[0] == x);
        assert(rebates(ts.push(x), limit) == (limit - x.trade_price) * x.trade_qty + rebates(
            Seq::<Trade>::empty(),
            limit,
        ));
    }
}

proof fn lemma_rebates_nonneg(ts: Seq<Trade>, limit: u64)
    requires
        forall|k: int| 0 <= k < ts.len() ==> (#[trigger] ts[k]).trade_price <= limit,
    ensures
        rebates(ts, limit) >= 0,
    decreases ts.len(),
{
    if ts.len() > 0 {
        assert forall|k: int| 0 <= k < ts.drop_first().len() implies (#[trigger] ts.drop_first()[k]).trade_price
            <= limit by {
            assert(ts.drop_first()[k] == ts[k + 1]);
        }
        lemma_rebates_nonneg(ts.drop_first(), limit);
        assert((limit - ts[0].trade_price) * ts[0].trade_qty >= 0) by (nonlinear_arith)
            requires
                ts[0].trade_price <= limit,
        ;
    }
}

/// Settling the trades of a limit buy by `u` at `limit` against other known
/// users adds to the buyer's balance exactly the rebates.
proof fn lemma_settle_buyer_balance(
    acc: Map<Seq<char>, Account>,
    ts: Seq<Trade>,
    m: Seq<char>,
    u: Seq<char>,
    limit: u64,
)
    requires
        acc.contains_key(u),
        forall|k: int|
            0 <= k < ts.len() ==> (#[trigger] ts[k]).to@ == u && ts[k].from@ != u && acc.contains_key(ts[k].from@)
                && ts[k].trade_price <= limit,
        acc[u].balance + rebates(ts, limit) <= u64::MAX,
    ensures
        settle(acc, ts, m, Some((u, limit)), false).contains_key(u),
        settle(acc, ts, m, Some((u, limit)), false)[u].balance == acc[u].balance + rebates(ts, limit),
        forall|k: Seq<char>| acc.contains_key(k) ==> #[trigger] settle(acc, ts, m, Some((u, limit)), false).contains_key(k),
    decreases ts.len(),
{
    if ts.len() > 0 {
        let dl = ts.drop_last();
        let x = ts.last();
        assert(ts == dl.push(x));
        assert(x == ts[ts.len() - 1]);
        lemma_rebates_push(dl, x, limit);
        assert forall|k: int| 0 <= k < dl.len() implies (#[trigger] dl[k]).trade_price <= limit by {
            assert(dl[k] == ts[k]);
        }
        lemma_rebates_nonneg(dl, limit);
        assert((limit - x.trade_price) * x.trade_qty >= 0) by (nonlinear_arith)
            requires
                x.trade_price <= limit,
        ;
        assert forall|k: int| 0 <= k < dl.len() implies (#[trigger] dl[k]).to@ == u && dl[k].from@ != u
            && acc.contains_key(dl[k].from@) && dl[k].trade_price <= limit by {
            assert(dl[k] == ts[k]);
        }
        lemma_settle_buyer_balance(acc, dl, m, u, limit);
        let xx = settle(acc, dl, m, Some((u, limit)), false);
        assert(xx.contains_key(x.from@));
        assert(settle(acc, ts, m, Some((u, limit)), false) == settle_one(xx, x, m, Some((u, limit)), false));
        let a1 = xx.insert(
            x.from@,
            crate::types::with_balance(xx[x.from@], crate::types::capped_sum(xx[x.from@].balance, x.trade_price * x.trade_qty)),
        );
        assert(a1[u] == xx[u]);
        let b2 = crate::types::with_stock(a1[u], m, x.stock_type, crate::types::capped_sum(held(a1[u], m, x.stock_type), x.trade_qty as int));
        assert(b2.balance == xx[u].balance);
        if limit > x.trade_price {
            assert(settle_one(xx, x, m, Some((u, limit)), false) == a1.insert(
                u,
                crate::types::with_balance(b2, crate::types::capped_sum(b2.balance, (limit - x.trade_price) * x.trade_qty)),
            ));
        } else {
            assert((limit - x.trade_price) * x.trade_qty == 0) by (nonlinear_arith)
                requires
                    limit == x.trade_price,
            ;
            assert(settle_one(xx, x, m, Some((u, limit)), false) == a1.insert(u, b2));
        }
    }
}

/// A limit buy pays exactly the prices it filled at: where every trade is with
/// another known user, the buyer's balance drops by what the fills cost plus
/// `limit` for each unit left resting; each improvement on the limit comes back.
pub proof fn lemma_limit_buy_pays_fill_prices(
    e0: Exchange,
    e1: Exchange,
    order: Order,
    r: Result<Vec<Trade>, ExchangeError>,
)
    requires
        limit_order_done(e0, e1, order, r),
        order.ordertype == Ordertype::Buy,
        r is Ok,
        forall|k: int|
            0 <= k < r->Ok_0@.len() ==> (#[trigger] r->Ok_0@[k]).from@ != order.username@
                && e0.accounts().contains_key(r->Ok_0@[k].from@),
    ensures
        e1.accounts().contains_key(order.username@),
        e1.accounts()[order.username@].balance == e0.accounts()[order.username@].balance - cost(r->Ok_0@)
            - order.price * (order.quantity - units(r->Ok_0@)),
{
    let u = order.username@;
    let m = order.market_id@;
    let ts = r->Ok_0@;
    let a0 = e0.accounts()[u];
    let mk0 = e0.market_map()[m];
    let b = mk0.book(order.stock_type);
    let f = fill(b.sell_view(), order.username, true, order.price, order.quantity, None);
    assert(limit_refusal(a0, order) is None);
    assert(ts == f.0);
    lemma_fill_within_limit(b.sell_view(), order.username, true, order.price, order.quantity, None);
    lemma_limit_buy_conserves(b.sell_view(), order.username, order.price, order.quantity);
    lemma_fills_to_taker(b.sell_view(), order.username, order.price, order.quantity);
    let acc = e0.accounts().insert(u, limit_lock(a0, order));
    lemma_rebates_nonneg(ts, order.price);
    assert(order.price * f.2 >= 0) by (nonlinear_arith);
    lemma_cost_nonneg(ts);
    lemma_settle_buyer_balance(acc, ts, m, u, order.price);
    assert(order.price * (order.quantity - units(ts)) == order.price * f.2);
}

proof fn lemma_cost_nonneg(ts: Seq<Trade>)
    ensures
        cost(ts) >= 0,
    decreases ts.len(),
{
    if ts.len() > 0 {
        lemma_cost_nonneg(ts.drop_first());
        assert(ts[0].trade_price * ts[0].trade_qty >= 0) by (nonlinear_arith);
    }
}

/// Every trade of an incoming buy goes to its taker.
proof fn lemma_fills_to_taker(ls: Seq<(u64, Seq<Order>)>, taker: String, limit: u64, qty: u64)
    ensures
        forall|k: int|
            0 <= k < fill(ls, taker, true, limit, qty, None).0.len() ==> (#[trigger] fill(
                ls,
                taker,
                true,
                limit,
                qty,
                None,
            ).0[k]).to == taker,
    decreases qty,
{
    if qty > 0 && ls.len() > 0 && ls[0].1.len() > 0 {
        let head = ls[0].1[0];
        let t: u64 = if qty <= head.quantity { qty } else { head.quantity };
        if t > 0 {
            let r = fill(take_head(ls, t), taker, true, limit, (qty - t) as u64, None);
            lemma_fills_to_taker(take_head(ls, t), taker, limit, (qty - t) as u64);
            let tr = trade_of(head, taker, true, t, ls[0].0);
            assert forall|k: int| 0 < k < (seq![tr] + r.0).len() implies (seq![tr] + r.0)[k] == r.0[k - 1] by {}
        }
    }
}

} // verus!
