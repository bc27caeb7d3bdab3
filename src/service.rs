use vstd::prelude::*;

use crate::market::{matching, resolve};
use crate::numeric::Numeric;
use crate::types::{
    BrokerError, CoinIdentifierKey, CoinPerformanceRequest, CoinTransactionResponse, CurrencyData,
    GraphGenerationOptions, GraphGranularity,
};

verus! {

pub const STATUS_MULTIPLE_CHOICES: u16 = 300;

pub const STATUS_BAD_REQUEST: u16 = 400;

/// The amount a daily reward adds to a balance.
pub const DAILY_REWARD: i64 = 100;

/// Resolves a key to one coin, or to the answer a caller gets instead: a
/// bad request where the key is empty or matches nothing, and the list of
/// candidates where it matches several.
pub fn coin_from_key(records: &Vec<CurrencyData>, key: &CoinIdentifierKey) -> (r: Result<
    CurrencyData,
    (CoinTransactionResponse, u16),
>)
    ensures
        key.spec_query() is None ==> (r matches Err((resp, code)) && code == STATUS_BAD_REQUEST
            && resp.msg@ == "Please specify an id, name, or symbol"@ && resp.currencies is None),
        key.spec_query() matches Some(q) ==> {
            let m = matching(records@, q);
            &&& (m.len() == 0 ==> (r matches Err((resp, code)) && code == STATUS_BAD_REQUEST
                && resp.msg@ == "No coin found matching criteria!"@ && resp.currencies is None))
            &&& (m.len() == 1 ==> r == Ok::<CurrencyData, (CoinTransactionResponse, u16)>(m[0]))
            &&& (m.len() > 1 ==> (r matches Err((resp, code)) && code == STATUS_MULTIPLE_CHOICES
                && resp.msg@ == "Multiple coins found!"@ && (resp.currencies matches Some(c) && c@
                == m)))
        },
{
    match resolve(records, key) {
        Ok(c) => Ok(c),
        Err(BrokerError::Ambiguous(coins)) => Err(
            (
                CoinTransactionResponse {
                    msg: String::from_str("Multiple coins found!"),
                    currencies: Some(coins),
                },
                STATUS_MULTIPLE_CHOICES,
            ),
        ),
        Err(BrokerError::NotFound) => Err(
            (
                CoinTransactionResponse {
                    msg: String::from_str("No coin found matching criteria!"),
                    currencies: None,
                },
                STATUS_BAD_REQUEST,
            ),
        ),
        Err(_) => Err(
            (
                CoinTransactionResponse {
                    msg: String::from_str("Please specify an id, name, or symbol"),
                    currencies: None,
                },
                STATUS_BAD_REQUEST,
            ),
        ),
    }
}

impl GraphGenerationOptions {
    /// The options of a chart request for `coin`: the caption defaults to the
    /// coin's id and the granularity to intraday; without both ends of the
    /// range there is no chart.
    pub fn from_request(req: &CoinPerformanceRequest, coin: &CurrencyData) -> (r: Option<
        GraphGenerationOptions,
    >)
        ensures
            (req.from is None || req.to is None) ==> r is None,
            (req.from is Some && req.to is Some) ==> (r matches Some(o) && o.from
                == req.from->Some_0 && o.to == req.to->Some_0 && o.width == req.width && o.height == req.height && o.caption
                == (match req.caption {
                Some(c) => c,
                None => coin.id,
            }) && o.granularity == (match req.granularity {
                Some(g) => g,
                None => GraphGranularity::IntraDay,
            })),
    {
        let from = match req.from {
            Some(f) => f,
            None => return None,
        };
        let to = match req.to {
            Some(t) => t,
            None => return None,
        };
        let caption = match &req.caption {
            Some(c) => c.clone(),
            None => coin.id.clone(),
        };
        let granularity = match req.granularity {
            Some(g) => g,
            None => GraphGranularity::IntraDay,
        };
        Some(
            GraphGenerationOptions {
                width: req.width,
                height: req.height,
                caption,
                from,
                to,
                granularity,
            },
        )
    }
}

/// The balance after a daily reward: the current one, or zero for a user
/// without a wallet, plus the reward; `None` where that does not fit.
pub fn rewarded_balance(current: Option<Numeric>) -> (r: Option<Numeric>)
    requires
        current matches Some(b) ==> b.wf(),
    ensures
        ({
            let b = match current {
                Some(b) => b,
                None => Numeric { mantissa: 0, scale: 0 },
            };
            let reward = Numeric { mantissa: DAILY_REWARD as i128, scale: 0 };
            &&& r is Some <==> Numeric::add_fits(b, reward)
            &&& r matches Some(n) ==> n.wf() && n.units() == b.units() + reward.units()
        }),
{
    let b = match current {
        Some(b) => b,
        None => Numeric::zero(),
    };
    b.checked_add(&Numeric::from_int(DAILY_REWARD))
}

} // verus!
