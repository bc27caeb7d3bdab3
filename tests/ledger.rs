use coin_broker::ledger::{buy_outcome, sell_outcome, Ledger, Side};
use coin_broker::numeric::Numeric;
use coin_broker::types::{BrokerError, CurrencyData, TimeSeriesData};

fn whole(i: i64) -> Numeric {
    Numeric::from_int(i)
}

fn same(a: &Numeric, b: &Numeric) -> bool {
    a.le(b) && b.le(a)
}

fn ticks_at(price: Numeric) -> Vec<TimeSeriesData> {
    vec![
        TimeSeriesData { as_of: 10, price: Numeric::from_int(1) },
        TimeSeriesData { as_of: 20, price },
    ]
}

fn funded(user: &str, amount: i64) -> Ledger {
    let mut l = Ledger::new();
    l.set_wallet_balance_by_userid(&user.to_string(), whole(amount));
    l
}

fn record(id: &str, name: &str, price: Numeric) -> CurrencyData {
    CurrencyData {
        as_of: 0,
        id: id.to_string(),
        symbol: id.to_uppercase(),
        name: name.to_string(),
        price,
        image_url: String::new(),
        market_cap: Numeric::zero(),
        volume: Numeric::zero(),
        coingecko_timestamp: String::new(),
    }
}

#[test]
fn buy_within_balance_spends_exactly_the_cost() {
    let user = "alice".to_string();
    let coin = "bitcoin".to_string();
    let mut l = funded("alice", 1000);
    let r = l.buy_currency(&coin, whole(5), &user, &ticks_at(whole(100)));
    assert!(matches!(r, Ok(0)));
    let b = l.get_wallet_balance_by_userid(&user).unwrap();
    assert!(same(&b, &whole(500)));
    let txs = l.transactions();
    assert_eq!(txs.len(), 1);
    assert_eq!(txs[0].side, Side::Buy);
    assert!(same(&txs[0].cost, &whole(500)));
    assert_eq!(txs[0].user_id, "alice");
    assert_eq!(txs[0].coin_id, "bitcoin");
    assert!(same(&l.held_quantity(&user, &coin), &whole(5)));
}

#[test]
fn buy_beyond_balance_is_refused() {
    let user = "bob".to_string();
    let coin = "bitcoin".to_string();
    let mut l = funded("bob", 100);
    let r = l.buy_currency(&coin, whole(2), &user, &ticks_at(whole(100)));
    assert!(matches!(r, Err(BrokerError::InsufficientFunds)));
    assert!(same(&l.get_wallet_balance_by_userid(&user).unwrap(), &whole(100)));
    assert_eq!(l.transactions().len(), 0);
    assert!(same(&l.held_quantity(&user, &coin), &whole(0)));
}

#[test]
fn buy_of_whole_balance_leaves_zero() {
    let user = "bob".to_string();
    let mut l = funded("bob", 100);
    let r = l.buy_currency(&"eth".to_string(), whole(1), &user, &ticks_at(whole(100)));
    assert!(r.is_ok());
    assert!(same(&l.get_wallet_balance_by_userid(&user).unwrap(), &whole(0)));
}

#[test]
fn nonpositive_quantity_is_refused() {
    let user = "carol".to_string();
    let coin = "eth".to_string();
    let mut l = funded("carol", 1_000_000);
    for q in [0i64, -1, -50] {
        let r = l.buy_currency(&coin, whole(q), &user, &ticks_at(whole(1)));
        assert!(matches!(r, Err(BrokerError::InvalidQuantity)));
        let r = l.sell_currency(&coin, whole(q), &user, &ticks_at(whole(1)));
        assert!(matches!(r, Err(BrokerError::InvalidQuantity)));
    }
    let mut empty = Ledger::new();
    let r = empty.buy_currency(&coin, whole(0), &user, &Vec::new());
    assert!(matches!(r, Err(BrokerError::InvalidQuantity)));
    assert_eq!(l.transactions().len(), 0);
}

#[test]
fn buy_without_price_or_wallet_is_refused() {
    let user = "dave".to_string();
    let coin = "eth".to_string();
    let mut l = funded("dave", 1000);
    assert!(matches!(l.buy_currency(&coin, whole(1), &user, &Vec::new()), Err(BrokerError::NotFound)));
    assert!(matches!(
        l.buy_currency(&coin, whole(1), &user, &ticks_at(whole(0))),
        Err(BrokerError::NonPositivePrice)
    ));
    assert!(matches!(
        l.buy_currency(&coin, whole(1), &"nobody".to_string(), &ticks_at(whole(1))),
        Err(BrokerError::InsufficientFunds)
    ));
    assert_eq!(l.transactions().len(), 0);
}

#[test]
fn buy_leaves_other_wallets_alone() {
    let alice = "alice".to_string();
    let bob = "bob".to_string();
    let mut l = Ledger::new();
    l.set_wallet_balance_by_userid(&alice, whole(1000));
    l.set_wallet_balance_by_userid(&bob, whole(700));
    assert!(l.buy_currency(&"btc".to_string(), whole(3), &alice, &ticks_at(whole(100))).is_ok());
    assert!(same(&l.get_wallet_balance_by_userid(&alice).unwrap(), &whole(700)));
    assert!(same(&l.get_wallet_balance_by_userid(&bob).unwrap(), &whole(700)));
}

#[test]
fn serial_buys_never_overspend() {
    let user = "erin".to_string();
    let coin = "btc".to_string();
    let mut l = funded("erin", 1000);
    let mut accepted: i32 = 0;
    for _ in 0..5 {
        if l.buy_currency(&coin, whole(3), &user, &ticks_at(whole(100))).is_ok() {
            accepted += 1;
        }
    }
    assert_eq!(accepted, 3);
    assert!(same(&l.get_wallet_balance_by_userid(&user).unwrap(), &whole(100)));
    assert_eq!(l.transactions().len(), 3);
}

#[test]
fn fractional_buy_is_exact() {
    let user = "fay".to_string();
    let mut l = funded("fay", 10);
    // 0.25 at 3.10 costs 0.775
    let r = l.buy_currency(&"x".to_string(), Numeric::new(25, 2), &user, &ticks_at(Numeric::new(310, 2)));
    assert!(r.is_ok());
    let b = l.get_wallet_balance_by_userid(&user).unwrap();
    assert!(same(&b, &Numeric::new(9225, 3)));
    assert!(same(&l.transactions()[0].cost, &Numeric::new(775, 3)));
}

#[test]
fn sell_credits_proceeds_and_reduces_holding() {
    let user = "gus".to_string();
    let coin = "btc".to_string();
    let mut l = funded("gus", 1000);
    assert!(l.buy_currency(&coin, whole(5), &user, &ticks_at(whole(100))).is_ok());
    let r = l.sell_currency(&coin, whole(2), &user, &ticks_at(whole(150)));
    assert!(matches!(r, Ok(1)));
    assert!(same(&l.get_wallet_balance_by_userid(&user).unwrap(), &whole(800)));
    assert!(same(&l.held_quantity(&user, &coin), &whole(3)));
    let txs = l.transactions();
    assert_eq!(txs[1].side, Side::Sell);
    assert!(same(&txs[1].cost, &whole(300)));
}

#[test]
fn sell_beyond_holding_is_refused() {
    let user = "hal".to_string();
    let coin = "btc".to_string();
    let mut l = funded("hal", 1000);
    assert!(l.buy_currency(&coin, whole(1), &user, &ticks_at(whole(100))).is_ok());
    let r = l.sell_currency(&coin, whole(2), &user, &ticks_at(whole(100)));
    assert!(matches!(r, Err(BrokerError::InsufficientHoldings)));
    assert!(same(&l.get_wallet_balance_by_userid(&user).unwrap(), &whole(900)));
    assert_eq!(l.transactions().len(), 1);
}

#[test]
fn daily_reward_adds_to_balance() {
    let user = "ivy".to_string();
    let mut l = Ledger::new();
    let r = l.daily_reward(&user);
    assert!(same(&r.unwrap(), &whole(100)));
    l.set_wallet_balance_by_userid(&user, Numeric::new(505, 1));
    let r = l.daily_reward(&user);
    assert!(same(&r.unwrap(), &Numeric::new(1505, 1)));
    assert!(same(&l.get_wallet_balance_by_userid(&user).unwrap(), &Numeric::new(1505, 1)));
}

#[test]
fn portfolio_values_each_holding() {
    let user = "jo".to_string();
    let mut l = funded("jo", 1000);
    assert!(l.buy_currency(&"btc".to_string(), whole(2), &user, &ticks_at(whole(100))).is_ok());
    assert!(l.buy_currency(&"eth".to_string(), whole(3), &user, &ticks_at(whole(10))).is_ok());
    let records = vec![record("eth", "Ethereum", whole(20)), record("btc", "Bitcoin", whole(150))];
    let p = l.get_portfolio(&user, &records).unwrap();
    assert!(same(&p.balance, &whole(770)));
    assert_eq!(p.positions.len(), 2);
    assert_eq!(p.positions[0].crypto_id, "btc");
    assert_eq!(p.positions[0].name, "Bitcoin");
    assert!(same(&p.positions[0].current_value, &whole(300)));
    assert_eq!(p.positions[1].name, "Ethereum");
    assert!(same(&p.positions[1].current_value, &whole(60)));
    assert!(matches!(l.get_portfolio(&user, &vec![records[0].clone()]), Err(BrokerError::NotFound)));
    assert!(matches!(l.get_portfolio(&"nobody".to_string(), &records), Err(BrokerError::NotFound)));
    let worthless = vec![record("eth", "Ethereum", whole(20)), record("btc", "Bitcoin", whole(0))];
    assert!(matches!(l.get_portfolio(&user, &worthless), Err(BrokerError::NonPositivePrice)));
}

#[test]
fn buy_outcome_decides_from_plain_values() {
    let ok = buy_outcome(Some(whole(1000)), whole(5), Ok(whole(100))).unwrap();
    assert!(same(&ok.new_balance, &whole(500)));
    assert!(same(&ok.cost, &whole(500)));
    assert!(matches!(buy_outcome(None, whole(1), Ok(whole(1))), Err(BrokerError::InsufficientFunds)));
    assert!(matches!(
        buy_outcome(Some(whole(1)), whole(1), Err(BrokerError::NonPositivePrice)),
        Err(BrokerError::NonPositivePrice)
    ));
    assert!(matches!(
        buy_outcome(Some(whole(1)), Numeric::new(i128::MAX, 0), Ok(whole(2))),
        Err(BrokerError::Overflow)
    ));
}

#[test]
fn sell_outcome_decides_from_plain_values() {
    let ok = sell_outcome(None, whole(3), whole(2), Ok(whole(7))).unwrap();
    assert!(same(&ok.new_balance, &whole(14)));
    assert!(matches!(
        sell_outcome(Some(whole(0)), whole(1), whole(2), Ok(whole(7))),
        Err(BrokerError::InsufficientHoldings)
    ));
}

#[test]
fn portfolio_leaves_out_coins_sold_off() {
    let user = "kim".to_string();
    let btc = "btc".to_string();
    let eth = "eth".to_string();
    let mut l = funded("kim", 1000);
    assert!(l.buy_currency(&btc, whole(2), &user, &ticks_at(whole(100))).is_ok());
    assert!(l.buy_currency(&eth, whole(1), &user, &ticks_at(whole(50))).is_ok());
    assert!(l.sell_currency(&btc, whole(2), &user, &ticks_at(whole(100))).is_ok());
    // a coin without a record is no obstacle once it is no longer held
    let records = vec![record("eth", "Ethereum", whole(40))];
    let p = l.get_portfolio(&user, &records).unwrap();
    assert_eq!(p.positions.len(), 1);
    assert_eq!(p.positions[0].crypto_id, "eth");
    assert!(same(&p.positions[0].qty, &whole(1)));
    assert!(same(&p.positions[0].current_value, &whole(40)));
    assert!(same(&p.balance, &whole(950)));
}

#[test]
fn portfolio_of_other_users_holdings_is_separate() {
    let a = "a".to_string();
    let b = "b".to_string();
    let mut l = Ledger::new();
    l.set_wallet_balance_by_userid(&a, whole(100));
    l.set_wallet_balance_by_userid(&b, whole(100));
    assert!(l.buy_currency(&"btc".to_string(), whole(1), &a, &ticks_at(whole(10))).is_ok());
    let records = vec![record("btc", "Bitcoin", whole(10))];
    assert_eq!(l.get_portfolio(&b, &records).unwrap().positions.len(), 0);
    assert_eq!(l.get_portfolio(&a, &records).unwrap().positions.len(), 1);
}
