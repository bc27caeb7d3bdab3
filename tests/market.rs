use coin_broker::market::{
    coins_matching, get_coins_matching_key, latest_price, matches_folded, resolve, CoinQuery,
};
use coin_broker::numeric::Numeric;
use coin_broker::types::{BrokerError, CoinIdentifierKey, CurrencyData, TimeSeriesData};

fn record(id: &str, symbol: &str, name: &str) -> CurrencyData {
    CurrencyData {
        as_of: 0,
        id: id.to_string(),
        symbol: symbol.to_string(),
        name: name.to_string(),
        price: Numeric::from_int(1),
        image_url: String::new(),
        market_cap: Numeric::zero(),
        volume: Numeric::zero(),
        coingecko_timestamp: String::new(),
    }
}

fn by_symbol(s: &str) -> CoinIdentifierKey {
    CoinIdentifierKey { crypto_id: None, name: None, symbol: Some(s.to_string()) }
}

fn records() -> Vec<CurrencyData> {
    vec![
        record("bitcoin", "BTC", "Bitcoin"),
        record("ethereum", "ETH", "Ethereum"),
        record("bitcoin-cash", "BCH", "Bitcoin Cash"),
    ]
}

#[test]
fn symbol_matching_one_record_resolves_to_it() {
    let c = resolve(&records(), &by_symbol("BTC")).unwrap();
    assert_eq!(c.id, "bitcoin");
}

#[test]
fn symbol_and_name_match_ignoring_case() {
    let c = resolve(&records(), &by_symbol("eth")).unwrap();
    assert_eq!(c.id, "ethereum");
    let key = CoinIdentifierKey { crypto_id: None, name: Some("BITCOIN CASH".to_string()), symbol: None };
    assert_eq!(resolve(&records(), &key).unwrap().id, "bitcoin-cash");
}

#[test]
fn symbol_matching_nothing_is_not_found() {
    assert!(matches!(resolve(&records(), &by_symbol("DOGE")), Err(BrokerError::NotFound)));
}

#[test]
fn symbol_matching_several_is_ambiguous_with_all() {
    let mut rs = records();
    rs.push(record("btc-fork", "btc", "Bitcoin Fork"));
    match resolve(&rs, &by_symbol("BTC")) {
        Err(BrokerError::Ambiguous(c)) => {
            assert_eq!(c.len(), 2);
            assert_eq!(c[0].id, "bitcoin");
            assert_eq!(c[1].id, "btc-fork");
        }
        _ => panic!("expected an ambiguous outcome"),
    }
}

#[test]
fn empty_key_is_invalid() {
    let key = CoinIdentifierKey { crypto_id: None, name: None, symbol: None };
    assert!(matches!(resolve(&records(), &key), Err(BrokerError::InvalidKey)));
    assert!(matches!(get_coins_matching_key(&records(), &key), Err(BrokerError::InvalidKey)));
}

#[test]
fn id_takes_priority_and_matches_exactly() {
    let key = CoinIdentifierKey {
        crypto_id: Some("ethereum".to_string()),
        name: Some("Bitcoin".to_string()),
        symbol: Some("BTC".to_string()),
    };
    assert_eq!(resolve(&records(), &key).unwrap().id, "ethereum");
    let upper = CoinIdentifierKey { crypto_id: Some("ETHEREUM".to_string()), name: None, symbol: None };
    assert!(matches!(resolve(&records(), &upper), Err(BrokerError::NotFound)));
    let name_first = CoinIdentifierKey { crypto_id: None, name: Some("ethereum".to_string()), symbol: Some("BTC".to_string()) };
    assert_eq!(resolve(&records(), &name_first).unwrap().id, "ethereum");
}

#[test]
fn matching_keeps_record_order() {
    let m = coins_matching(&records(), &CoinQuery::ByName("bitcoin".to_string()));
    assert_eq!(m.len(), 1);
    assert_eq!(m[0].symbol, "BTC");
    let none = coins_matching(&Vec::new(), &CoinQuery::BySymbol("x".to_string()));
    assert_eq!(none.len(), 0);
}

#[test]
fn latest_price_takes_the_most_recent_tick() {
    let ticks = vec![
        TimeSeriesData { as_of: 30, price: Numeric::from_int(7) },
        TimeSeriesData { as_of: 10, price: Numeric::from_int(5) },
        TimeSeriesData { as_of: 20, price: Numeric::from_int(6) },
    ];
    let p = latest_price(&ticks).unwrap();
    assert_eq!(p.mantissa, 7);
}

#[test]
fn latest_price_fails_without_a_usable_price() {
    assert!(matches!(latest_price(&Vec::new()), Err(BrokerError::NotFound)));
    let ticks = vec![
        TimeSeriesData { as_of: 1, price: Numeric::from_int(5) },
        TimeSeriesData { as_of: 2, price: Numeric::from_int(-1) },
    ];
    assert!(matches!(latest_price(&ticks), Err(BrokerError::NonPositivePrice)));
    let zero = vec![TimeSeriesData { as_of: 1, price: Numeric::new(0, 4) }];
    assert!(matches!(latest_price(&zero), Err(BrokerError::NonPositivePrice)));
}

#[test]
fn folded_values_compare_exactly() {
    let by_name = CoinQuery::ByName("Bitcoin".to_string());
    assert!(matches_folded(&by_name, &"bitcoin".to_string(), &"x".to_string(), &"bitcoin".to_string()));
    assert!(!matches_folded(&by_name, &"bitcoin".to_string(), &"bitcoin".to_string(), &"Bitcoin".to_string()));
    let by_id = CoinQuery::ById("eth".to_string());
    assert!(matches_folded(&by_id, &"eth".to_string(), &"eth".to_string(), &"".to_string()));
    assert!(!matches_folded(&by_id, &"eth".to_string(), &"ETH".to_string(), &"eth".to_string()));
}
