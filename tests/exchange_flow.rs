use exchange_rs::{
    hash_password, Exchange, ExchangeError, Market, Order, OrderBook, Ordertype, StockType, User,
    UserHoldings,
};

fn s(x: &str) -> String {
    x.to_string()
}

fn signed_up(ex: &mut Exchange, name: &str, pass: &str) {
    assert_eq!(ex.signup(s(name), hash_password(pass)), Ok(s(name)));
}

fn user_with(name: &str, balance: u64, market: &str, a: u64, b: u64) -> User {
    User {
        username: s(name),
        password: s("x"),
        balance,
        holdings: vec![(s(market), UserHoldings { stock_a: a, stock_b: b })],
    }
}

fn order(name: &str, price: u64, quantity: u64, side: Ordertype) -> Order {
    Order {
        price,
        quantity,
        stock_type: StockType::StockA,
        username: s(name),
        timestamp: 0,
        ordertype: side,
        market_id: s("m"),
    }
}

#[test]
fn test_auth_flow() {
    let mut ex = Exchange::new();

    assert_eq!(ex.signup(s("user1"), hash_password("pass123")), Ok(s("user1")));
    assert_eq!(ex.signup(s("user2"), hash_password("pass345")), Ok(s("user2")));
    assert_eq!(ex.signin(&s("user2"), &s("pass345")), Ok(s("user2")));

    let res_dup = ex.signup(s("user1"), hash_password("pass456"));
    assert_eq!(res_dup, Err(ExchangeError::UsernameTaken));

    let res_wrong_pass = ex.signin(&s("user1"), &s("wrongpass"));
    assert_eq!(res_wrong_pass, Err(ExchangeError::InvalidCredentials));
    assert_eq!(ex.signin(&s("user1"), &s("pass123")), Ok(s("user1")));

    let test_amount = 5000;
    let details = ex.user_details(&s("user1")).unwrap();
    assert_eq!(details.balance, test_amount);

    let res_no_user = ex.signin(&s("user_does_not_exist"), &s("pass123"));
    assert_eq!(res_no_user, Err(ExchangeError::UserNotFound));

    let market_id = ex.create_market(s("user1"), s("market_name")).unwrap();
    assert!(!market_id.is_empty());
    assert!(ex.create_market(s("user3"), s("market_name")).is_err());

    assert_eq!(ex.split_stocks(&s("user2"), &market_id, 100), Ok(()));
    let details2 = ex.user_details(&s("user2")).unwrap();
    let holdings = details2.get(&market_id).unwrap();
    assert!(holdings.stock_a == 100 && holdings.stock_b == 100);
    assert!(details2.balance == test_amount - 100);

    let res_split = ex.split_stocks(&s("user2"), &market_id, test_amount);
    assert_eq!(res_split, Err(ExchangeError::InsufficientFunds { required: 5000, available: 4900 }));

    let orderbook = ex.get_orderbook(&market_id).unwrap();
    assert!(orderbook.stock_a.buy.is_empty());
    assert!(orderbook.stock_b.buy.is_empty());
    assert!(orderbook.stock_a.sell.is_empty());
    assert!(orderbook.stock_b.sell.is_empty());

    let res_limit_sell =
        ex.create_limit_order(s("user2"), StockType::StockA, 50, 10, Ordertype::Sell, market_id.clone());
    assert!(res_limit_sell.unwrap().is_empty());
    let res_limit_buy =
        ex.create_limit_order(s("user1"), StockType::StockA, 40, 5, Ordertype::Buy, market_id.clone());
    assert!(res_limit_buy.unwrap().is_empty());

    let ob_after = ex.get_orderbook(&market_id).unwrap();
    assert_eq!(ob_after.stock_a.buy.len(), 1);
    assert_eq!(ob_after.stock_a.sell.len(), 1);

    let u1_locked = ex.user_details(&s("user1")).unwrap();
    assert_eq!(u1_locked.balance, 5000 - (40 * 5));
    assert!(u1_locked.get(&market_id).is_none());
    let u2_locked = ex.user_details(&s("user2")).unwrap();
    assert_eq!(u2_locked.balance, 4900);
    assert_eq!(u2_locked.get(&market_id).unwrap().stock_a, 90);

    let trades =
        ex.create_limit_order(s("user1"), StockType::StockA, 60, 5, Ordertype::Buy, market_id.clone()).unwrap();
    let text = format!("{:?}", trades);
    assert!(text.starts_with("[Trade"), "Expected a trade string, got: {}", text);
    assert!(text.contains("from: \"user2\""));
    assert!(text.contains("to: \"user1\""));
    assert!(text.contains("trade_qty: 5"));
    assert!(text.contains("trade_price: 50"));

    let ob_after = ex.get_orderbook(&market_id).unwrap();
    assert_eq!(ob_after.stock_a.sell.len(), 1);

    let u1 = ex.user_details(&s("user1")).unwrap();
    assert_eq!(u1.balance, 5000 - (40 * 5) - (50 * 5));
    assert_eq!(u1.get(&market_id).unwrap().stock_a, 5);
    let u2 = ex.user_details(&s("user2")).unwrap();
    assert_eq!(u2.balance, 4900 + (50 * 5));

    let trades =
        ex.create_limit_order(s("user1"), StockType::StockA, 60, 10, Ordertype::Buy, market_id.clone()).unwrap();
    let text = format!("{:?}", trades);
    assert!(text.starts_with("[Trade"), "Expected a trade string, got: {}", text);
    assert!(text.contains("from: \"user2\""));
    assert!(text.contains("to: \"user1\""));
    assert!(text.contains("trade_qty: 5"));
    assert!(text.contains("trade_price: 50"));

    let ob_after = ex.get_orderbook(&market_id).unwrap();
    assert_eq!(ob_after.stock_a.sell.len(), 0);
    assert_eq!(ob_after.stock_a.buy.len(), 2);
}

#[test]
fn scenario_limit_orders_between_two_users() {
    let mut ex = Exchange::new();
    signed_up(&mut ex, "A", "pa");
    signed_up(&mut ex, "B", "pb");
    let m = ex.create_market(s("A"), s("M")).unwrap();
    assert_eq!(ex.split_stocks(&s("B"), &m, 100), Ok(()));
    let b = ex.user_details(&s("B")).unwrap();
    assert_eq!(b.balance, 4900);
    assert_eq!(b.get(&m), Some(UserHoldings { stock_a: 100, stock_b: 100 }));

    let t = ex.create_limit_order(s("B"), StockType::StockA, 50, 10, Ordertype::Sell, m.clone()).unwrap();
    assert!(t.is_empty());
    assert_eq!(ex.user_details(&s("B")).unwrap().get(&m).unwrap().stock_a, 90);

    let t = ex.create_limit_order(s("A"), StockType::StockA, 40, 5, Ordertype::Buy, m.clone()).unwrap();
    assert!(t.is_empty());
    assert_eq!(ex.user_details(&s("A")).unwrap().balance, 4800);

    let t = ex.create_limit_order(s("A"), StockType::StockA, 60, 5, Ordertype::Buy, m.clone()).unwrap();
    assert_eq!(t.len(), 1);
    assert_eq!(t[0].from, "B");
    assert_eq!(t[0].to, "A");
    assert_eq!(t[0].trade_qty, 5);
    assert_eq!(t[0].trade_price, 50);
    assert_eq!(t[0].stock_type, StockType::StockA);

    let a = ex.user_details(&s("A")).unwrap();
    assert_eq!(a.balance, 4550);
    assert_eq!(a.get(&m).unwrap().stock_a, 5);
    assert_eq!(ex.user_details(&s("B")).unwrap().balance, 5150);
}

#[test]
fn signup_taken_leaves_account_alone() {
    let mut ex = Exchange::new();
    signed_up(&mut ex, "u", "p");
    let m = ex.create_market(s("u"), s("M")).unwrap();
    ex.split_stocks(&s("u"), &m, 30).unwrap();
    assert_eq!(ex.signup(s("u"), hash_password("other")), Err(ExchangeError::UsernameTaken));
    let d = ex.user_details(&s("u")).unwrap();
    assert_eq!(d.balance, 4970);
    assert_eq!(d.get(&m), Some(UserHoldings { stock_a: 30, stock_b: 30 }));
    assert_eq!(ex.signin(&s("u"), &s("p")), Ok(s("u")));
    assert_eq!(ex.signin(&s("u"), &s("other")), Err(ExchangeError::InvalidCredentials));
}

#[test]
fn empty_market_has_empty_books() {
    let mut ex = Exchange::new();
    signed_up(&mut ex, "u", "p");
    let m = ex.create_market(s("u"), s("M")).unwrap();
    assert_eq!(m.chars().count(), 21);
    let ob = ex.get_orderbook(&m).unwrap();
    assert!(ob.stock_a.buy.is_empty() && ob.stock_a.sell.is_empty());
    assert!(ob.stock_b.buy.is_empty() && ob.stock_b.sell.is_empty());
    assert_eq!(ex.get_orderbook(&s("nope")).unwrap_err(), ExchangeError::MarketNotFound);
}

#[test]
fn split_then_merge_restores_account() {
    let mut ex = Exchange::new();
    signed_up(&mut ex, "u", "p");
    let m = ex.create_market(s("u"), s("M")).unwrap();
    ex.split_stocks(&s("u"), &m, 10).unwrap();
    ex.split_stocks(&s("u"), &m, 250).unwrap();
    assert_eq!(ex.merge_stocks(&s("u"), &m, 250), Ok(()));
    let d = ex.user_details(&s("u")).unwrap();
    assert_eq!(d.balance, 4990);
    assert_eq!(d.get(&m), Some(UserHoldings { stock_a: 10, stock_b: 10 }));
}

#[test]
fn merge_refusals() {
    let mut ex = Exchange::new();
    signed_up(&mut ex, "u", "p");
    let m = ex.create_market(s("u"), s("M")).unwrap();
    ex.split_stocks(&s("u"), &m, 10).unwrap();
    assert_eq!(
        ex.merge_stocks(&s("u"), &m, 11),
        Err(ExchangeError::InsufficientHoldings { required: 11, available: 10 })
    );
    assert_eq!(ex.merge_stocks(&s("ghost"), &m, 1), Err(ExchangeError::UserNotFound));
    assert_eq!(ex.user_details(&s("u")).unwrap().balance, 4990);
}

#[test]
fn split_refusals() {
    let mut ex = Exchange::new();
    signed_up(&mut ex, "u", "p");
    assert_eq!(ex.split_stocks(&s("ghost"), &s("m"), 1), Err(ExchangeError::UserNotFound));
    assert_eq!(ex.split_stocks(&s("u"), &s("m"), 1), Err(ExchangeError::MarketNotFound));
    assert_eq!(ex.user_details(&s("ghost")).unwrap_err(), ExchangeError::UserNotFound);
}

#[test]
fn order_refusals() {
    let mut ex = Exchange::new();
    signed_up(&mut ex, "u", "p");
    let m = ex.create_market(s("u"), s("M")).unwrap();
    assert_eq!(
        ex.create_limit_order(s("ghost"), StockType::StockA, 1, 1, Ordertype::Buy, m.clone()),
        Err(ExchangeError::UserNotFound)
    );
    assert_eq!(
        ex.create_limit_order(s("u"), StockType::StockA, 1, 1, Ordertype::Buy, s("nope")),
        Err(ExchangeError::MarketNotFound)
    );
    assert_eq!(
        ex.create_limit_order(s("u"), StockType::StockA, 100, 51, Ordertype::Buy, m.clone()),
        Err(ExchangeError::InsufficientFunds { required: 5100, available: 5000 })
    );
    assert_eq!(
        ex.create_limit_order(s("u"), StockType::StockB, 10, 1, Ordertype::Sell, m.clone()),
        Err(ExchangeError::InsufficientStock { required: 1, available: 0 })
    );
    assert_eq!(
        ex.create_market_order(s("u"), StockType::StockA, 3, Ordertype::Sell, m.clone()),
        Err(ExchangeError::InsufficientStock { required: 3, available: 0 })
    );
    assert_eq!(
        ex.create_limit_order(s("u"), StockType::StockA, u64::MAX, 2, Ordertype::Buy, m.clone()),
        Err(ExchangeError::InsufficientFunds { required: u64::MAX, available: 5000 })
    );
    ex.markets[0].is_settled = true;
    assert_eq!(
        ex.create_limit_order(s("u"), StockType::StockA, 1, 1, Ordertype::Buy, m.clone()),
        Err(ExchangeError::MarketSettled)
    );
    assert_eq!(
        ex.create_market_order(s("u"), StockType::StockA, 1, Ordertype::Buy, m.clone()),
        Err(ExchangeError::MarketSettled)
    );
    assert_eq!(ex.user_details(&s("u")).unwrap().balance, 5000);
}

#[test]
fn market_identifier_collision_is_refused() {
    let mut ex = Exchange::new();
    signed_up(&mut ex, "u", "p");
    assert_eq!(ex.create_market_with_id(s("u"), s("M"), s("id1")), Ok(s("id1")));
    assert_eq!(ex.create_market_with_id(s("u"), s("N"), s("id1")), Err(ExchangeError::MarketAlreadyExists));
    assert_eq!(ex.create_market_with_id(s("v"), s("N"), s("id2")), Err(ExchangeError::UserNotFound));
    assert_eq!(ex.markets.len(), 1);
    assert_eq!(ex.markets[0].market_name, "M");
    assert_eq!(ex.markets[0].created_by, "u");
}

#[test]
fn same_price_fills_oldest_first() {
    let mut book = OrderBook::new();
    let mut s1 = user_with("s1", 0, "m", 10, 0);
    let mut s2 = user_with("s2", 0, "m", 10, 0);
    let mut buyer = user_with("b", 1000, "m", 0, 0);
    assert!(book.add_limit_order(order("s1", 20, 2, Ordertype::Sell), &mut s1).unwrap().is_empty());
    assert!(book.add_limit_order(order("s2", 20, 9, Ordertype::Sell), &mut s2).unwrap().is_empty());
    assert_eq!(book.sell.len(), 1);
    assert_eq!(book.sell[0].orders.len(), 2);
    let t = book.add_limit_order(order("b", 20, 5, Ordertype::Buy), &mut buyer).unwrap();
    assert_eq!(t.len(), 2);
    assert_eq!((t[0].from.as_str(), t[0].trade_qty), ("s1", 2));
    assert_eq!((t[1].from.as_str(), t[1].trade_qty), ("s2", 3));
    assert_eq!(book.sell[0].orders.len(), 1);
    assert_eq!(book.sell[0].orders[0].quantity, 6);
    assert_eq!(buyer.balance, 900);
    assert_eq!(s1.holdings[0].1.stock_a, 8);
}

#[test]
fn better_price_wins_over_age() {
    let mut book = OrderBook::new();
    let mut s1 = user_with("s1", 0, "m", 10, 0);
    let mut s2 = user_with("s2", 0, "m", 10, 0);
    let mut buyer = user_with("b", 1000, "m", 0, 0);
    book.add_limit_order(order("s1", 30, 4, Ordertype::Sell), &mut s1).unwrap();
    book.add_limit_order(order("s2", 25, 4, Ordertype::Sell), &mut s2).unwrap();
    assert_eq!(book.sell[0].price, 25);
    assert_eq!(book.sell[1].price, 30);
    let t = book.add_limit_order(order("b", 28, 6, Ordertype::Buy), &mut buyer).unwrap();
    assert_eq!(t.len(), 1);
    assert_eq!(t[0].from, "s2");
    assert_eq!(t[0].trade_price, 25);
    assert_eq!(book.buy.len(), 1);
    assert_eq!(book.buy[0].price, 28);
    assert_eq!(book.buy[0].orders[0].quantity, 2);
}

#[test]
fn limit_sell_fills_highest_bid_at_its_price() {
    let mut book = OrderBook::new();
    let mut b1 = user_with("b1", 1000, "m", 0, 0);
    let mut b2 = user_with("b2", 1000, "m", 0, 0);
    let mut seller = user_with("s", 0, "m", 10, 0);
    book.add_limit_order(order("b1", 40, 3, Ordertype::Buy), &mut b1).unwrap();
    book.add_limit_order(order("b2", 45, 3, Ordertype::Buy), &mut b2).unwrap();
    assert_eq!(book.buy[0].price, 45);
    let t = book.add_limit_order(order("s", 42, 5, Ordertype::Sell), &mut seller).unwrap();
    assert_eq!(t.len(), 1);
    assert_eq!(t[0].to, "b2");
    assert_eq!(t[0].from, "s");
    assert_eq!(t[0].trade_price, 45);
    assert_eq!(book.sell[0].price, 42);
    assert_eq!(book.sell[0].orders[0].quantity, 2);
    assert_eq!(seller.holdings[0].1.stock_a, 5);
}

#[test]
fn price_improvement_is_rebated() {
    let mut ex = Exchange::new();
    signed_up(&mut ex, "a", "p");
    signed_up(&mut ex, "b", "p");
    let m = ex.create_market(s("a"), s("M")).unwrap();
    ex.split_stocks(&s("b"), &m, 10).unwrap();
    ex.create_limit_order(s("b"), StockType::StockB, 30, 4, Ordertype::Sell, m.clone()).unwrap();
    let t = ex.create_limit_order(s("a"), StockType::StockB, 45, 4, Ordertype::Buy, m.clone()).unwrap();
    assert_eq!(t[0].trade_price, 30);
    let a = ex.user_details(&s("a")).unwrap();
    assert_eq!(a.balance, 5000 - 120);
    assert_eq!(a.get(&m).unwrap().stock_b, 4);
    assert_eq!(ex.user_details(&s("b")).unwrap().balance, 4990 + 120);
    assert_eq!(ex.markets[0].trades.len(), 1);
}

#[test]
fn market_buy_stops_when_funds_run_out() {
    let mut book = OrderBook::new();
    let mut s1 = user_with("s1", 0, "m", 10, 0);
    let mut buyer = user_with("b", 100, "m", 0, 0);
    book.add_limit_order(order("s1", 30, 2, Ordertype::Sell), &mut s1).unwrap();
    book.add_limit_order(order("s1", 50, 2, Ordertype::Sell), &mut s1).unwrap();
    let t = book
        .execute_market_order(s("b"), Ordertype::Buy, 4, &mut buyer, s("m"), StockType::StockA)
        .unwrap();
    assert_eq!(t.len(), 1);
    assert_eq!(t[0].trade_price, 30);
    assert_eq!(t[0].trade_qty, 2);
    assert_eq!(buyer.balance, 40);
    assert_eq!(book.sell.len(), 1);
    assert_eq!(book.sell[0].orders[0].quantity, 2);
}

#[test]
fn market_sell_locks_all_and_drops_the_rest() {
    let mut book = OrderBook::new();
    let mut b1 = user_with("b1", 1000, "m", 0, 0);
    let mut seller = user_with("s", 0, "m", 10, 0);
    book.add_limit_order(order("b1", 40, 3, Ordertype::Buy), &mut b1).unwrap();
    let t = book
        .execute_market_order(s("s"), Ordertype::Sell, 5, &mut seller, s("m"), StockType::StockA)
        .unwrap();
    assert_eq!(t.len(), 1);
    assert_eq!(t[0].trade_qty, 3);
    assert_eq!(t[0].trade_price, 40);
    assert_eq!(seller.holdings[0].1.stock_a, 5);
    assert!(book.buy.is_empty());
    assert!(book.sell.is_empty());
}

#[test]
fn market_order_with_no_liquidity_makes_no_trade() {
    let mut ex = Exchange::new();
    signed_up(&mut ex, "u", "p");
    let m = ex.create_market(s("u"), s("M")).unwrap();
    let t = ex.create_market_order(s("u"), StockType::StockA, 5, Ordertype::Buy, m.clone()).unwrap();
    assert!(t.is_empty());
    assert_eq!(ex.user_details(&s("u")).unwrap().balance, 5000);
}

#[test]
fn market_self_trade_moves_nothing_further() {
    let mut ex = Exchange::new();
    signed_up(&mut ex, "u", "p");
    signed_up(&mut ex, "v", "p");
    let m = ex.create_market(s("u"), s("M")).unwrap();
    ex.split_stocks(&s("u"), &m, 10).unwrap();
    ex.create_limit_order(s("u"), StockType::StockA, 20, 3, Ordertype::Sell, m.clone()).unwrap();
    let t = ex.create_market_order(s("u"), StockType::StockA, 3, Ordertype::Buy, m.clone()).unwrap();
    assert_eq!(t.len(), 1);
    assert_eq!(t[0].from, "u");
    assert_eq!(t[0].to, "u");
    let d = ex.user_details(&s("u")).unwrap();
    assert_eq!(d.balance, 4990 - 60);
    assert_eq!(d.get(&m).unwrap().stock_a, 7);
}

#[test]
fn market_buy_between_users_settles() {
    let mut ex = Exchange::new();
    signed_up(&mut ex, "u", "p");
    signed_up(&mut ex, "v", "p");
    let m = ex.create_market(s("u"), s("M")).unwrap();
    ex.split_stocks(&s("u"), &m, 10).unwrap();
    ex.create_limit_order(s("u"), StockType::StockA, 20, 3, Ordertype::Sell, m.clone()).unwrap();
    let t = ex.create_market_order(s("v"), StockType::StockA, 5, Ordertype::Buy, m.clone()).unwrap();
    assert_eq!(t.len(), 1);
    assert_eq!(t[0].trade_qty, 3);
    let v = ex.user_details(&s("v")).unwrap();
    assert_eq!(v.balance, 4940);
    assert_eq!(v.get(&m).unwrap().stock_a, 3);
    assert_eq!(ex.user_details(&s("u")).unwrap().balance, 4990 + 60);
}

#[test]
fn orders_carry_a_timestamp() {
    let mut ex = Exchange::new();
    signed_up(&mut ex, "u", "p");
    let m = ex.create_market(s("u"), s("M")).unwrap();
    ex.create_limit_order(s("u"), StockType::StockA, 10, 1, Ordertype::Buy, m.clone()).unwrap();
    let ob = ex.get_orderbook(&m).unwrap();
    assert!(ob.stock_a.buy[0].orders[0].timestamp > 1_500_000_000_000);
    assert_eq!(ob.stock_a.buy[0].orders[0].username, "u");
}

#[test]
fn new_market_is_open_and_empty() {
    let mk = Market::initialise_market(s("M"), s("u"));
    assert_eq!(mk.market_id.chars().count(), 21);
    assert!(!mk.is_settled);
    assert!(mk.winning_outcome.is_none());
    assert!(mk.trades.is_empty());
    let other = Market::initialise_market(s("M"), s("u"));
    assert_ne!(mk.market_id, other.market_id);
}

#[test]
fn password_hash_verifies() {
    let h = hash_password("secret");
    assert_ne!(h, "secret");
    assert!(exchange_rs::verify_password("secret", &h));
    assert!(!exchange_rs::verify_password("Secret", &h));
    assert!(!exchange_rs::verify_password("secret", "not a hash"));
}

#[test]
fn new_order_rests_without_matching() {
    let mut book = OrderBook::new();
    book.add_new_order(30, 4, StockType::StockA, Ordertype::Sell, s("s"));
    book.add_new_order(35, 2, StockType::StockA, Ordertype::Buy, s("b"));
    book.add_new_order(30, 1, StockType::StockA, Ordertype::Sell, s("t"));
    assert_eq!(book.buy.len(), 1);
    assert_eq!(book.buy[0].price, 35);
    assert_eq!(book.sell.len(), 1);
    assert_eq!(book.sell[0].orders.len(), 2);
    assert_eq!(book.sell[0].orders[0].username, "s");
    assert_eq!(book.sell[0].orders[1].username, "t");
    assert!(book.sell[0].orders[1].timestamp >= book.sell[0].orders[0].timestamp);
}
