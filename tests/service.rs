use coin_broker::middleware::{api_key_validatorer, error_body, ApiKeyError, ApiKeyService};
use coin_broker::numeric::Numeric;
use coin_broker::push;
use coin_broker::service::{coin_from_key, rewarded_balance};
use coin_broker::types::{
    CoinIdentifierKey, CoinPerformanceRequest, CurrencyData, GraphGenerationOptions, GraphGranularity,
    StatusResponse,
};

fn record(id: &str, symbol: &str) -> CurrencyData {
    CurrencyData {
        as_of: 0,
        id: id.to_string(),
        symbol: symbol.to_string(),
        name: id.to_string(),
        price: Numeric::from_int(1),
        image_url: String::new(),
        market_cap: Numeric::zero(),
        volume: Numeric::zero(),
        coingecko_timestamp: String::new(),
    }
}

fn by_symbol(s: &str) -> CoinIdentifierKey {
    CoinIdentifierKey { crypto_id: None, name: None, symbol: Some(s.to_string()) }
}

#[test]
fn coin_from_key_answers_each_outcome() {
    let rs = vec![record("a", "X"), record("b", "X"), record("c", "Y")];
    assert_eq!(coin_from_key(&rs, &by_symbol("y")).unwrap().id, "c");
    let (resp, code) = coin_from_key(&rs, &by_symbol("z")).unwrap_err();
    assert_eq!(code, 400);
    assert_eq!(resp.msg, "No coin found matching criteria!");
    assert!(resp.currencies.is_none());
    let (resp, code) = coin_from_key(&rs, &by_symbol("x")).unwrap_err();
    assert_eq!(code, 300);
    assert_eq!(resp.msg, "Multiple coins found!");
    assert_eq!(resp.currencies.unwrap().len(), 2);
    let empty = CoinIdentifierKey { crypto_id: None, name: None, symbol: None };
    let (resp, code) = coin_from_key(&rs, &empty).unwrap_err();
    assert_eq!(code, 400);
    assert_eq!(resp.msg, "Please specify an id, name, or symbol");
}

#[test]
fn chart_options_take_defaults() {
    let coin = record("bitcoin", "BTC");
    let mut req = CoinPerformanceRequest {
        coin_key: by_symbol("BTC"),
        width: 640,
        height: 480,
        caption: None,
        from: Some(100),
        to: Some(200),
        granularity: None,
    };
    let o = GraphGenerationOptions::from_request(&req, &coin).unwrap();
    assert_eq!(o.caption, "bitcoin");
    assert_eq!(o.granularity, GraphGranularity::IntraDay);
    assert_eq!((o.from, o.to, o.width, o.height), (100, 200, 640, 480));
    req.caption = Some("BTC chart".to_string());
    req.granularity = Some(GraphGranularity::Weekly);
    let o = GraphGenerationOptions::from_request(&req, &coin).unwrap();
    assert_eq!(o.caption, "BTC chart");
    assert_eq!(o.granularity, GraphGranularity::Weekly);
    req.to = None;
    assert!(GraphGenerationOptions::from_request(&req, &coin).is_none());
}

#[test]
fn reward_adds_one_hundred() {
    let n = rewarded_balance(None).unwrap();
    assert_eq!((n.mantissa, n.scale), (100, 0));
    let n = rewarded_balance(Some(Numeric::new(125, 2))).unwrap();
    assert_eq!((n.mantissa, n.scale), (10125, 2));
    assert!(rewarded_balance(Some(Numeric::new(i128::MAX, 0))).is_none());
}

#[test]
fn api_keys_are_checked_exactly() {
    let v = api_key_validatorer(vec!["k1".to_string(), "secret".to_string()]);
    assert!(v.validate(Some("secret")));
    assert!(v.validate(Some("k1")));
    assert!(!v.validate(Some("SECRET")));
    assert!(!v.validate(Some("")));
    assert!(!v.validate(None));
    let none = api_key_validatorer(Vec::new());
    assert!(!none.validate(Some("k1")));
}

#[test]
fn api_key_errors_explain_themselves() {
    assert_eq!(ApiKeyError::Invalid.message(), "Invalid API key");
    assert_eq!(ApiKeyError::InvalidEncoding.message(), "API keys are ASCII values");
    assert_eq!(ApiKeyError::Invalid.status_code(), 401);
    let s = ApiKeyService::from_validator(7u8);
    assert_eq!(s.validator, 7);
}

#[test]
fn status_ok_and_push() {
    let s = StatusResponse::ok();
    assert!(s.success);
    assert!(s.error_msg.is_none());
    assert_eq!(push("coin", "broker"), "coinbroker");
    assert_eq!(push("", ""), "");
}

#[test]
fn error_body_escapes_quotes_and_backslashes() {
    assert_eq!(error_body("boom"), "{\"success\":false,\"message\":\"boom\"}");
    assert_eq!(
        error_body("say \"hi\" \\ bye"),
        "{\"success\":false,\"message\":\"say \\\"hi\\\" \\\\ bye\"}"
    );
    assert_eq!(error_body(""), "{\"success\":false,\"message\":\"\"}");
    assert_eq!(error_body("é\"ü"), "{\"success\":false,\"message\":\"é\\\"ü\"}");
}
