use vstd::prelude::*;

use crate::numeric::Numeric;
use crate::types::{BrokerError, CoinIdentifierKey, CurrencyData, TimeSeriesData};

verus! {

/// The lower-case form of a string, as `str::to_lowercase` gives it.
pub uninterp spec fn lower_of(s: Seq<char>) -> Seq<char>;

/// Relies on `str::to_lowercase`: its result depends on the characters alone.
#[verifier::external_body]
fn lowercase(s: &str) -> (r: String)
    ensures
        r@ == lower_of(s@),
{
    s.to_lowercase()
}

/// The one field of a key that a lookup goes by.
#[derive(Clone, Debug)]
pub enum CoinQuery {
    /// Exact id.
    ById(String),
    /// Name, ignoring case.
    ByName(String),
    /// Symbol, ignoring case.
    BySymbol(String),
}

impl CoinIdentifierKey {
    /// The highest-priority field that is present: id, then name, then symbol.
    pub open spec fn spec_query(self) -> Option<CoinQuery> {
        if let Some(id) = self.crypto_id {
            Some(CoinQuery::ById(id))
        } else if let Some(name) = self.name {
            Some(CoinQuery::ByName(name))
        } else if let Some(symbol) = self.symbol {
            Some(CoinQuery::BySymbol(symbol))
        } else {
            None
        }
    }

    pub fn query(&self) -> (r: Option<CoinQuery>)
        ensures
            r == self.spec_query(),
    {
        if let Some(id) = &self.crypto_id {
            Some(CoinQuery::ById(id.clone()))
        } else if let Some(name) = &self.name {
            Some(CoinQuery::ByName(name.clone()))
        } else if let Some(symbol) = &self.symbol {
            Some(CoinQuery::BySymbol(symbol.clone()))
        } else {
            None
        }
    }
}

pub open spec fn query_matches(q: CoinQuery, c: CurrencyData) -> bool {
    match q {
        CoinQuery::ById(id) => c.id@ == id@,
        CoinQuery::ByName(name) => lower_of(c.name@) == lower_of(name@),
        CoinQuery::BySymbol(symbol) => lower_of(c.symbol@) == lower_of(symbol@),
    }
}

/// The records that `q` matches, in their order.
pub open spec fn matching(records: Seq<CurrencyData>, q: CoinQuery) -> Seq<CurrencyData>
    decreases records.len(),
{
    if records.len() == 0 {
        Seq::empty()
    } else {
        let rest = matching(records.drop_last(), q);
        if query_matches(q, records.last()) {
            rest.push(records.last())
        } else {
            rest
        }
    }
}

/// Whether a record matches `q` once both sides are in the form they are
/// compared in: `key` is the query's id, or its name or symbol in lower
/// case; `field` is the record's name or symbol in lower case.
pub open spec fn folded_match(q: CoinQuery, key: Seq<char>, id: Seq<char>, field: Seq<char>) -> bool {
    match q {
        CoinQuery::ById(_) => id == key,
        _ => field == key,
    }
}

/// Compares a record with a query on values already put in lower case.
pub fn matches_folded(q: &CoinQuery, key: &String, id: &String, field: &String) -> (r: bool)
    ensures
        r == folded_match(*q, key@, id@, field@),
{
    match q {
        CoinQuery::ById(_) => *id == *key,
        _ => *field == *key,
    }
}

/// Whether `c` matches `q`; for a name or symbol both sides are given in lower case.
fn record_matches(q: &CoinQuery, folded: &String, c: &CurrencyData) -> (r: bool)
    requires
        (q matches CoinQuery::ById(id) ==> folded@ == id@),
        (q matches CoinQuery::ByName(n) ==> folded@ == lower_of(n@)),
        (q matches CoinQuery::BySymbol(s) ==> folded@ == lower_of(s@)),
    ensures
        r == query_matches(*q, *c),
{
    let field = match q {
        CoinQuery::ById(_) => String::new(),
        CoinQuery::ByName(_) => lowercase(c.name.as_str()),
        CoinQuery::BySymbol(_) => lowercase(c.symbol.as_str()),
    };
    matches_folded(q, folded, &c.id, &field)
}

/// The records that `q` matches, in their order.
pub fn coins_matching(records: &Vec<CurrencyData>, q: &CoinQuery) -> (r: Vec<CurrencyData>)
    ensures
        r@ == matching(records@, *q),
{
    let folded = match q {
        CoinQuery::ById(id) => id.clone(),
        CoinQuery::ByName(name) => lowercase(name.as_str()),
        CoinQuery::BySymbol(symbol) => lowercase(symbol.as_str()),
    };
    let mut out: Vec<CurrencyData> = Vec::new();
    let mut i: usize = 0;
    while i < records.len()
        invariant
            i <= records.len(),
            (q matches CoinQuery::ById(id) ==> folded@ == id@),
            (q matches CoinQuery::ByName(n) ==> folded@ == lower_of(n@)),
            (q matches CoinQuery::BySymbol(s) ==> folded@ == lower_of(s@)),
            out@ == matching(records@.take(i as int), *q),
        decreases records.len() - i,
    {
        proof {
            assert(records@.take(i as int + 1).drop_last() =~= records@.take(i as int));
        }
        if record_matches(q, &folded, &records[i]) {
            out.push(records[i].duplicate());
        }
        i = i + 1;
    }
    proof {
        assert(records@.take(records.len() as int) =~= records@);
    }
    out
}

/// The current records that a key matches, by its highest-priority field.
pub fn get_coins_matching_key(records: &Vec<CurrencyData>, key: &CoinIdentifierKey) -> (r: Result<
    Vec<CurrencyData>,
    BrokerError,
>)
    ensures
        key.spec_query() is None ==> r matches Err(BrokerError::InvalidKey),
        key.spec_query() matches Some(q) ==> (r matches Ok(v) && v@ == matching(records@, q)),
{
    match key.query() {
        Some(q) => Ok(coins_matching(records, &q)),
        None => Err(BrokerError::InvalidKey),
    }
}

/// Resolves a key to the one record it matches.
pub fn resolve(records: &Vec<CurrencyData>, key: &CoinIdentifierKey) -> (r: Result<
    CurrencyData,
    BrokerError,
>)
    ensures
        key.spec_query() is None ==> r matches Err(BrokerError::InvalidKey),
        key.spec_query() matches Some(q) ==> {
            let m = matching(records@, q);
            &&& (m.len() == 0 ==> r matches Err(BrokerError::NotFound))
            &&& (m.len() == 1 ==> r == Ok::<CurrencyData, BrokerError>(m[0]))
            &&& (m.len() > 1 ==> (r matches Err(BrokerError::Ambiguous(c)) && c@ == m))
        },
{
    let mut found = match get_coins_matching_key(records, key) {
        Ok(v) => v,
        Err(e) => return Err(e),
    };
    if found.len() == 0 {
        Err(BrokerError::NotFound)
    } else if found.len() > 1 {
        Err(BrokerError::Ambiguous(found))
    } else {
        Ok(found.remove(0))
    }
}

/// The most recent of a non-empty run of ticks; the last one among equal times.
pub open spec fn latest_tick(s: Seq<TimeSeriesData>) -> TimeSeriesData
    decreases s.len(),
{
    if s.len() <= 1 {
        s[0]
    } else {
        let t = latest_tick(s.drop_last());
        if s.last().as_of >= t.as_of {
            s.last()
        } else {
            t
        }
    }
}

/// The price that trades are valued at: that of the most recent tick, unless
/// there is none or it is not positive.
pub open spec fn price_result(ticks: Seq<TimeSeriesData>) -> Result<Numeric, BrokerError> {
    if ticks.len() == 0 {
        Err(BrokerError::NotFound)
    } else if latest_tick(ticks).price.units() <= 0 {
        Err(BrokerError::NonPositivePrice)
    } else {
        Ok(latest_tick(ticks).price)
    }
}

/// The most recent tick is one of the ticks.
pub proof fn lemma_latest_is_member(s: Seq<TimeSeriesData>)
    requires
        s.len() >= 1,
    ensures
        s.contains(latest_tick(s)),
    decreases s.len(),
{
    if s.len() == 1 {
        assert(s[0] == latest_tick(s));
    } else {
        lemma_latest_is_member(s.drop_last());
        let k = choose|k: int| 0 <= k < s.drop_last().len() && s.drop_last()[k] == latest_tick(s.drop_last());
        assert(s[k] == s.drop_last()[k]);
        assert(s[s.len() - 1] == s.last());
    }
}

/// The price of the most recent tick, where there is one and it is positive.
pub fn latest_price(ticks: &Vec<TimeSeriesData>) -> (r: Result<Numeric, BrokerError>)
    requires
        forall|i: int| 0 <= i < ticks@.len() ==> ticks@[i].price.wf(),
    ensures
        r == price_result(ticks@),
{
    if ticks.len() == 0 {
        return Err(BrokerError::NotFound);
    }
    let mut best = ticks[0];
    let mut i: usize = 1;
    while i < ticks.len()
        invariant
            1 <= i <= ticks.len(),
            best == latest_tick(ticks@.take(i as int)),
            forall|k: int| 0 <= k < ticks@.len() ==> ticks@[k].price.wf(),
            exists|k: int| 0 <= k < ticks@.len() && ticks@[k] == best,
        decreases ticks.len() - i,
    {
        proof {
            assert(ticks@.take(i as int + 1).drop_last() =~= ticks@.take(i as int));
        }
        if ticks[i].as_of >= best.as_of {
            best = ticks[i];
        }
        i = i + 1;
    }
    proof {
        assert(ticks@.take(ticks.len() as int) =~= ticks@);
    }
    if best.price.is_positive() {
        Ok(best.price)
    } else {
        Err(BrokerError::NonPositivePrice)
    }
}

} // verus!
