use vstd::prelude::*;

use crate::numeric::{Numeric, MAX_SCALE};

verus! {

/// Seconds since the Unix epoch, in UTC.
pub type Timestamp = i64;

/// The state of one instrument as last reported by the price feed.
#[derive(Clone, Debug)]
pub struct CurrencyData {
    pub as_of: Timestamp,
    pub id: String,
    pub symbol: String,
    pub name: String,
    pub price: Numeric,
    pub image_url: String,
    pub market_cap: Numeric,
    pub volume: Numeric,
    pub coingecko_timestamp: String,
}

impl CurrencyData {
    pub open spec fn wf(self) -> bool {
        self.price.scale <= MAX_SCALE && self.market_cap.wf() && self.volume.wf()
    }

    /// A field-by-field copy.
    pub fn duplicate(&self) -> (r: CurrencyData)
        ensures
            r == *self,
    {
        CurrencyData {
            as_of: self.as_of,
            id: self.id.clone(),
            symbol: self.symbol.clone(),
            name: self.name.clone(),
            price: self.price,
            image_url: self.image_url.clone(),
            market_cap: self.market_cap,
            volume: self.volume,
            coingecko_timestamp: self.coingecko_timestamp.clone(),
        }
    }
}

/// One price observation of an instrument.
#[derive(Clone, Copy, Debug)]
pub struct TimeSeriesData {
    pub as_of: Timestamp,
    pub price: Numeric,
}

/// Open, close, low and high price over one bucket of ticks.
#[derive(Clone, Copy, Debug)]
pub struct CandleStickData {
    pub open_date_time: Timestamp,
    pub open: Numeric,
    pub close: Numeric,
    pub low: Numeric,
    pub high: Numeric,
}

impl CandleStickData {
    /// `low <= open <= high` and `low <= close <= high`, by value.
    pub open spec fn is_consistent(self) -> bool {
        &&& self.low.units() <= self.open.units() <= self.high.units()
        &&& self.low.units() <= self.close.units() <= self.high.units()
    }
}

/// A holding of one user in one instrument.
#[derive(Clone, Debug)]
pub struct Position {
    pub name: String,
    pub crypto_id: String,
    pub current_value: Numeric,
    pub qty: Numeric,
}

/// A user's cash balance together with the positions held.
#[derive(Clone, Debug)]
pub struct Portfolio {
    pub balance: Numeric,
    pub positions: Vec<Position>,
}

#[derive(Clone, Debug)]
pub struct StatusResponse {
    pub success: bool,
    pub error_msg: Option<String>,
}

impl StatusResponse {
    pub fn ok() -> (r: StatusResponse)
        ensures
            r.success,
            r.error_msg is None,
    {
        StatusResponse { success: true, error_msg: None }
    }
}

#[derive(Clone, Debug)]
pub struct GetWalletBalanceRequest {
    pub user_id: String,
}

#[derive(Clone, Debug)]
pub struct DailyRewardRequest {
    pub user_id: String,
}

#[derive(Clone, Debug)]
pub struct UpdateServerMembersRequest {
    pub server_id: String,
    pub user_ids: Vec<String>,
}

#[derive(Clone, Debug)]
pub struct GetPortfolioRequest {
    pub user_id: String,
}

/// A partly specified instrument: by id, by name or by symbol.
#[derive(Clone, Debug)]
pub struct CoinIdentifierKey {
    pub crypto_id: Option<String>,
    pub name: Option<String>,
    pub symbol: Option<String>,
}

/// A buy or sell request for a quantity of a coin named by a key.
#[derive(Clone, Debug)]
pub struct CoinTransactionRequest {
    pub user_id: String,
    pub qty: Numeric,
    pub coin_key: CoinIdentifierKey,
}

/// The answer to a buy or sell: a message, and the candidates where the key was ambiguous.
#[derive(Clone, Debug)]
pub struct CoinTransactionResponse {
    pub msg: String,
    pub currencies: Option<Vec<CurrencyData>>,
}

/// The width of the buckets of a performance chart.
#[derive(Clone, Copy, Debug, PartialEq, Eq, Structural)]
pub enum GraphGranularity {
    IntraDay,
    Daily,
    Weekly,
    Monthly,
    Quarterly,
    Anually,
}

/// What a chart shows and how large it is drawn.
#[derive(Clone, Debug)]
pub struct GraphGenerationOptions {
    pub width: u32,
    pub height: u32,
    pub caption: String,
    pub from: Timestamp,
    pub to: Timestamp,
    pub granularity: GraphGranularity,
}

/// A chart request for a coin named by a key; absent fields take defaults.
#[derive(Clone, Debug)]
pub struct CoinPerformanceRequest {
    pub coin_key: CoinIdentifierKey,
    pub width: u32,
    pub height: u32,
    pub caption: Option<String>,
    pub from: Option<Timestamp>,
    pub to: Option<Timestamp>,
    pub granularity: Option<GraphGranularity>,
}

/// Where the database lives.
#[derive(Clone, Debug)]
pub struct DataSource {
    pub username: String,
    pub password: String,
    pub schema: String,
    pub host: String,
    pub port: u16,
}

#[derive(Clone, Debug)]
pub struct Config {
    pub data_source: DataSource,
}

/// The outcomes, other than success, of the library's operations.
#[derive(Clone, Debug)]
pub enum BrokerError {
    /// None of id, name and symbol was given.
    InvalidKey,
    /// No instrument, or no price, matched.
    NotFound,
    /// Several instruments matched; all of them.
    Ambiguous(Vec<CurrencyData>),
    InvalidQuantity,
    InsufficientFunds,
    InsufficientHoldings,
    /// The latest price is zero or negative.
    NonPositivePrice,
    /// The end of a time range is not after its start.
    InvalidRange,
    /// An exact amount does not fit the decimal representation.
    Overflow,
}

} // verus!
