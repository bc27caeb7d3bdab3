use vstd::prelude::*;

use crate::candles::prices_wf;
use crate::market::{latest_price, lemma_latest_is_member, price_result};
use crate::numeric::{
    fits, lemma_difference_units, lemma_product_positive, lemma_sum_units, Numeric, MAX_SCALE,
};
use crate::service::{rewarded_balance, DAILY_REWARD};
use crate::types::{BrokerError, CurrencyData, Portfolio, Position, TimeSeriesData};

verus! {

#[derive(Clone, Copy, Debug, PartialEq, Eq, Structural)]
pub enum Side {
    Buy,
    Sell,
}

/// One committed trade; never changed once recorded.
#[derive(Clone, Debug)]
pub struct Transaction {
    pub user_id: String,
    pub coin_id: String,
    pub qty: Numeric,
    pub cost: Numeric,
    pub side: Side,
}

/// The effect of a trade on a wallet: its new balance and the amount moved.
#[derive(Clone, Copy, Debug)]
pub struct Trade {
    pub new_balance: Numeric,
    pub cost: Numeric,
}

#[derive(Clone, Debug)]
pub struct Wallet {
    pub user_id: String,
    pub balance: Numeric,
}

/// The quantity of one coin that one user holds.
#[derive(Clone, Debug)]
pub struct Holding {
    pub user_id: String,
    pub coin_id: String,
    pub qty: Numeric,
}

/// What a buy of `qty` at `price` does to a wallet holding `balance`.
pub open spec fn buy_result(
    balance: Option<Numeric>,
    qty: Numeric,
    price: Result<Numeric, BrokerError>,
) -> Result<Trade, BrokerError> {
    if qty.units() <= 0 {
        Err(BrokerError::InvalidQuantity)
    } else {
        match price {
            Err(e) => Err(e),
            Ok(p) => match balance {
                None => Err(BrokerError::InsufficientFunds),
                Some(b) => if !fits(qty.mantissa * p.mantissa) {
                    Err(BrokerError::Overflow)
                } else {
                    let cost = Numeric::product(qty, p);
                    if !Numeric::sub_fits(b, cost) {
                        Err(BrokerError::Overflow)
                    } else if b.units() < cost.units() {
                        Err(BrokerError::InsufficientFunds)
                    } else {
                        Ok(Trade { new_balance: Numeric::difference(b, cost), cost })
                    }
                },
            },
        }
    }
}

/// What a sale of `qty` out of `held` at `price` does to a wallet holding
/// `balance`; a user without a wallet starts from zero.
pub open spec fn sell_result(
    balance: Option<Numeric>,
    held: Numeric,
    qty: Numeric,
    price: Result<Numeric, BrokerError>,
) -> Result<Trade, BrokerError> {
    if qty.units() <= 0 {
        Err(BrokerError::InvalidQuantity)
    } else {
        match price {
            Err(e) => Err(e),
            Ok(p) => if held.units() < qty.units() {
                Err(BrokerError::InsufficientHoldings)
            } else if !fits(qty.mantissa * p.mantissa) {
                Err(BrokerError::Overflow)
            } else {
                let proceeds = Numeric::product(qty, p);
                let b = match balance {
                    Some(b) => b,
                    None => Numeric { mantissa: 0, scale: 0 },
                };
                if !Numeric::add_fits(b, proceeds) {
                    Err(BrokerError::Overflow)
                } else {
                    Ok(Trade { new_balance: Numeric::sum(b, proceeds), cost: proceeds })
                }
            },
        }
    }
}

/// Decides a buy: the balance after it and its cost, or why it is refused.
pub fn buy_outcome(balance: Option<Numeric>, qty: Numeric, price: Result<Numeric, BrokerError>) -> (r:
    Result<Trade, BrokerError>)
    requires
        qty.scale <= MAX_SCALE,
        balance matches Some(b) ==> b.wf(),
        price matches Ok(p) ==> p.scale <= MAX_SCALE,
    ensures
        r == buy_result(balance, qty, price),
{
    if !qty.is_positive() {
        return Err(BrokerError::InvalidQuantity);
    }
    let p = match price {
        Ok(p) => p,
        Err(e) => return Err(e),
    };
    let b = match balance {
        Some(b) => b,
        None => return Err(BrokerError::InsufficientFunds),
    };
    let cost = match qty.checked_mul(&p) {
        Some(c) => c,
        None => return Err(BrokerError::Overflow),
    };
    let nb = match b.checked_sub(&cost) {
        Some(d) => d,
        None => return Err(BrokerError::Overflow),
    };
    if nb.is_negative() {
        return Err(BrokerError::InsufficientFunds);
    }
    Ok(Trade { new_balance: nb, cost })
}

/// Decides a sale: the balance after it and its proceeds, or why it is refused.
pub fn sell_outcome(
    balance: Option<Numeric>,
    held: Numeric,
    qty: Numeric,
    price: Result<Numeric, BrokerError>,
) -> (r: Result<Trade, BrokerError>)
    requires
        qty.scale <= MAX_SCALE,
        held.wf(),
        balance matches Some(b) ==> b.wf(),
        price matches Ok(p) ==> p.scale <= MAX_SCALE,
    ensures
        r == sell_result(balance, held, qty, price),
{
    if !qty.is_positive() {
        return Err(BrokerError::InvalidQuantity);
    }
    let p = match price {
        Ok(p) => p,
        Err(e) => return Err(e),
    };
    if held.lt(&qty) {
        return Err(BrokerError::InsufficientHoldings);
    }
    let proceeds = match qty.checked_mul(&p) {
        Some(c) => c,
        None => return Err(BrokerError::Overflow),
    };
    let b = match balance {
        Some(b) => b,
        None => Numeric::zero(),
    };
    let nb = match b.checked_add(&proceeds) {
        Some(d) => d,
        None => return Err(BrokerError::Overflow),
    };
    Ok(Trade { new_balance: nb, cost: proceeds })
}

pub open spec fn wallet_ids_unique(ws: Seq<Wallet>) -> bool {
    forall|i: int, j: int| 0 <= i < j < ws.len() ==> ws[i].user_id@ != ws[j].user_id@
}

/// The balance of user `u`, if `u` has a wallet.
pub open spec fn balance_in(ws: Seq<Wallet>, u: Seq<char>) -> Option<Numeric> {
    if exists|i: int| 0 <= i < ws.len() && ws[i].user_id@ == u {
        Some(ws[choose|i: int| 0 <= i < ws.len() && ws[i].user_id@ == u].balance)
    } else {
        None
    }
}

pub open spec fn holding_keys_unique(hs: Seq<Holding>) -> bool {
    forall|i: int, j: int|
        0 <= i < j < hs.len() ==> !(hs[i].user_id@ == hs[j].user_id@ && hs[i].coin_id@
            == hs[j].coin_id@)
}

pub open spec fn holds_key(h: Holding, u: Seq<char>, c: Seq<char>) -> bool {
    h.user_id@ == u && h.coin_id@ == c
}

/// The quantity of coin `c` that user `u` holds; zero where there is no holding.
pub open spec fn held_in(hs: Seq<Holding>, u: Seq<char>, c: Seq<char>) -> Numeric {
    if exists|i: int| 0 <= i < hs.len() && holds_key(hs[i], u, c) {
        hs[choose|i: int| 0 <= i < hs.len() && holds_key(hs[i], u, c)].qty
    } else {
        Numeric { mantissa: 0, scale: 0 }
    }
}

proof fn lemma_balance_at(ws: Seq<Wallet>, i: int)
    requires
        wallet_ids_unique(ws),
        0 <= i < ws.len(),
    ensures
        balance_in(ws, ws[i].user_id@) == Some(ws[i].balance),
{
    let u = ws[i].user_id@;
    let j = choose|j: int| 0 <= j < ws.len() && ws[j].user_id@ == u;
    assert(i == j);
}

proof fn lemma_wallet_update(ws: Seq<Wallet>, i: int, w: Wallet)
    requires
        wallet_ids_unique(ws),
        0 <= i < ws.len(),
        w.user_id@ == ws[i].user_id@,
    ensures
        wallet_ids_unique(ws.update(i, w)),
        forall|u: Seq<char>|
            #[trigger] balance_in(ws.update(i, w), u) == if u == w.user_id@ {
                Some(w.balance)
            } else {
                balance_in(ws, u)
            },
{
    let n = ws.update(i, w);
    assert(wallet_ids_unique(n));
    assert forall|u: Seq<char>| #[trigger]
        balance_in(n, u) == if u == w.user_id@ {
            Some(w.balance)
        } else {
            balance_in(ws, u)
        } by {
        if u == w.user_id@ {
            lemma_balance_at(n, i);
        } else if exists|j: int| 0 <= j < ws.len() && ws[j].user_id@ == u {
            let j = choose|j: int| 0 <= j < ws.len() && ws[j].user_id@ == u;
            lemma_balance_at(ws, j);
            lemma_balance_at(n, j);
        } else {
            assert forall|j: int| 0 <= j < n.len() implies n[j].user_id@ != u by {
                if j != i {
                    assert(n[j] == ws[j]);
                }
            }
        }
    }
}

proof fn lemma_wallet_push(ws: Seq<Wallet>, w: Wallet)
    requires
        wallet_ids_unique(ws),
        balance_in(ws, w.user_id@) is None,
    ensures
        wallet_ids_unique(ws.push(w)),
        forall|u: Seq<char>|
            #[trigger] balance_in(ws.push(w), u) == if u == w.user_id@ {
                Some(w.balance)
            } else {
                balance_in(ws, u)
            },
{
    let n = ws.push(w);
    assert(wallet_ids_unique(n)) by {
        assert forall|i: int, j: int| 0 <= i < j < n.len() implies n[i].user_id@
            != n[j].user_id@ by {
            if j == ws.len() {
                assert(n[i] == ws[i]);
            }
        }
    }
    assert forall|u: Seq<char>| #[trigger]
        balance_in(n, u) == if u == w.user_id@ {
            Some(w.balance)
        } else {
            balance_in(ws, u)
        } by {
        if u == w.user_id@ {
            lemma_balance_at(n, ws.len() as int);
        } else if exists|j: int| 0 <= j < ws.len() && ws[j].user_id@ == u {
            let j = choose|j: int| 0 <= j < ws.len() && ws[j].user_id@ == u;
            lemma_balance_at(ws, j);
            lemma_balance_at(n, j);
        } else {
            assert forall|j: int| 0 <= j < n.len() implies n[j].user_id@ != u by {
                if j < ws.len() {
                    assert(n[j] == ws[j]);
                }
            }
        }
    }
}

proof fn lemma_held_at(hs: Seq<Holding>, i: int)
    requires
        holding_keys_unique(hs),
        0 <= i < hs.len(),
    ensures
        held_in(hs, hs[i].user_id@, hs[i].coin_id@) == hs[i].qty,
{
    let u = hs[i].user_id@;
    let c = hs[i].coin_id@;
    assert(holds_key(hs[i], u, c));
    let j = choose|j: int| 0 <= j < hs.len() && holds_key(hs[j], u, c);
    assert(i == j);
}

proof fn lemma_holding_update(hs: Seq<Holding>, i: int, h: Holding)
    requires
        holding_keys_unique(hs),
        0 <= i < hs.len(),
        h.user_id@ == hs[i].user_id@,
        h.coin_id@ == hs[i].coin_id@,
    ensures
        holding_keys_unique(hs.update(i, h)),
        forall|u: Seq<char>, c: Seq<char>|
            #[trigger] held_in(hs.update(i, h), u, c) == if u == h.user_id@ && c == h.coin_id@ {
                h.qty
            } else {
                held_in(hs, u, c)
            },
{
    let n = hs.update(i, h);
    assert(holding_keys_unique(n));
    assert forall|u: Seq<char>, c: Seq<char>| #[trigger]
        held_in(n, u, c) == if u == h.user_id@ && c == h.coin_id@ {
            h.qty
        } else {
            held_in(hs, u, c)
        } by {
        if u == h.user_id@ && c == h.coin_id@ {
            lemma_held_at(n, i);
        } else if exists|j: int| 0 <= j < hs.len() && holds_key(hs[j], u, c) {
            let j = choose|j: int| 0 <= j < hs.len() && holds_key(hs[j], u, c);
            lemma_held_at(hs, j);
            lemma_held_at(n, j);
        } else {
            assert forall|j: int| 0 <= j < n.len() implies !holds_key(n[j], u, c) by {
                if j != i {
                    assert(n[j] == hs[j]);
                }
            }
        }
    }
}

proof fn lemma_holding_push(hs: Seq<Holding>, h: Holding)
    requires
        holding_keys_unique(hs),
        forall|j: int| 0 <= j < hs.len() ==> !holds_key(hs[j], h.user_id@, h.coin_id@),
    ensures
        holding_keys_unique(hs.push(h)),
        forall|u: Seq<char>, c: Seq<char>|
            #[trigger] held_in(hs.push(h), u, c) == if u == h.user_id@ && c == h.coin_id@ {
                h.qty
            } else {
                held_in(hs, u, c)
            },
{
    let n = hs.push(h);
    assert(holding_keys_unique(n)) by {
        assert forall|i: int, j: int| 0 <= i < j < n.len() implies !(n[i].user_id@
            == n[j].user_id@ && n[i].coin_id@ == n[j].coin_id@) by {
            if j == hs.len() {
                assert(n[i] == hs[i]);
                assert(!holds_key(hs[i], h.user_id@, h.coin_id@));
            }
        }
    }
    assert forall|u: Seq<char>, c: Seq<char>| #[trigger]
        held_in(n, u, c) == if u == h.user_id@ && c == h.coin_id@ {
            h.qty
        } else {
            held_in(hs, u, c)
        } by {
        if u == h.user_id@ && c == h.coin_id@ {
            lemma_held_at(n, hs.len() as int);
        } else if exists|j: int| 0 <= j < hs.len() && holds_key(hs[j], u, c) {
            let j = choose|j: int| 0 <= j < hs.len() && holds_key(hs[j], u, c);
            lemma_held_at(hs, j);
            lemma_held_at(n, j);
        } else {
            assert forall|j: int| 0 <= j < n.len() implies !holds_key(n[j], u, c) by {
                if j < hs.len() {
                    assert(n[j] == hs[j]);
                }
            }
        }
    }
}

/// The index of the first record of coin `coin`, or -1.
pub open spec fn first_record_of(records: Seq<CurrencyData>, coin: Seq<char>) -> int
    decreases records.len(),
{
    if records.len() == 0 {
        -1
    } else {
        let i = first_record_of(records.drop_last(), coin);
        if i >= 0 {
            i
        } else if records.last().id@ == coin {
            records.len() - 1
        } else {
            -1
        }
    }
}

/// Whether a quantity `q` of coin `c` can be valued from `records`: the coin
/// has a record, its price is positive, and the product fits.
pub open spec fn can_value(q: Numeric, records: Seq<CurrencyData>, c: Seq<char>) -> bool {
    let k = first_record_of(records, c);
    &&& k >= 0
    &&& records[k].price.units() > 0
    &&& fits(q.mantissa * records[k].price.mantissa)
}

/// `ps` lists each coin that user `u` holds a positive quantity of in `l`,
/// once, with that quantity, the coin's name, and the quantity times the
/// coin's current price.
pub open spec fn lists_holdings(
    l: Ledger,
    u: Seq<char>,
    records: Seq<CurrencyData>,
    ps: Seq<Position>,
) -> bool {
    &&& forall|i: int|
        0 <= i < ps.len() ==> {
            let k = first_record_of(records, (#[trigger] ps[i]).crypto_id@);
            &&& ps[i].qty == l.held(u, ps[i].crypto_id@)
            &&& ps[i].qty.units() > 0
            &&& 0 <= k < records.len()
            &&& records[k].price.units() > 0
            &&& ps[i].name == records[k].name
            &&& ps[i].current_value == Numeric::product(ps[i].qty, records[k].price)
            &&& ps[i].current_value.units() == Numeric::product_units(ps[i].qty, records[k].price)
        }
    &&& forall|i: int, j: int| 0 <= i < j < ps.len() ==> ps[i].crypto_id@ != ps[j].crypto_id@
    &&& forall|c: Seq<char>|
        #[trigger] l.held(u, c).units() > 0 ==> exists|i: int| 0 <= i < ps.len() && ps[i].crypto_id@ == c
}

/// A holding valued at the current price of its coin, which must be positive.
pub open spec fn position_of(h: Holding, records: Seq<CurrencyData>) -> Result<Position, BrokerError> {
    let i = first_record_of(records, h.coin_id@);
    if i < 0 {
        Err(BrokerError::NotFound)
    } else if records[i].price.units() <= 0 {
        Err(BrokerError::NonPositivePrice)
    } else if !fits(h.qty.mantissa * records[i].price.mantissa) {
        Err(BrokerError::Overflow)
    } else {
        Ok(
            Position {
                name: records[i].name,
                crypto_id: h.coin_id,
                current_value: Numeric::product(h.qty, records[i].price),
                qty: h.qty,
            },
        )
    }
}

/// The non-empty holdings of user `u`, valued, in their order; the first failure stops.
pub open spec fn positions_for(hs: Seq<Holding>, u: Seq<char>, records: Seq<CurrencyData>) -> Result<
    Seq<Position>,
    BrokerError,
>
    decreases hs.len(),
{
    if hs.len() == 0 {
        Ok(Seq::empty())
    } else {
        match positions_for(hs.drop_last(), u, records) {
            Err(e) => Err(e),
            Ok(ps) => if hs.last().user_id@ != u || hs.last().qty.units() <= 0 {
                Ok(ps)
            } else {
                match position_of(hs.last(), records) {
                    Err(e) => Err(e),
                    Ok(p) => Ok(ps.push(p)),
                }
            },
        }
    }
}

fn first_record_index(records: &Vec<CurrencyData>, coin: &String) -> (r: Option<usize>)
    ensures
        r matches Some(i) ==> i == first_record_of(records@, coin@),
        r is None ==> first_record_of(records@, coin@) < 0,
        first_record_of(records@, coin@) < records@.len(),
{
    let mut i: usize = 0;
    while i < records.len()
        invariant
            i <= records@.len(),
            first_record_of(records@.take(i as int), coin@) < 0,
        decreases records@.len() - i,
    {
        proof {
            assert(records@.take(i as int + 1).drop_last() =~= records@.take(i as int));
        }
        if records[i].id == *coin {
            proof {
                lemma_first_record_prefix(records@, coin@, i as int + 1);
            }
            return Some(i);
        }
        i = i + 1;
    }
    proof {
        assert(records@.take(records@.len() as int) =~= records@);
    }
    None
}

/// A first match within a prefix is the first match of the whole.
proof fn lemma_first_record_prefix(records: Seq<CurrencyData>, coin: Seq<char>, k: int)
    requires
        0 <= k <= records.len(),
        first_record_of(records.take(k), coin) >= 0,
    ensures
        first_record_of(records, coin) == first_record_of(records.take(k), coin),
    decreases records.len() - k,
{
    if k < records.len() {
        assert(records.take(k + 1).drop_last() =~= records.take(k));
        lemma_first_record_prefix(records, coin, k + 1);
    } else {
        assert(records.take(k) =~= records);
    }
}

/// Wallets, holdings and the trade history, kept in memory. Every change goes
/// through a `&mut` method that reads, checks and writes in one step, so the
/// trades of one ledger are serialized, and a refused trade changes nothing.
#[derive(Debug)]
pub struct Ledger {
    wallets: Vec<Wallet>,
    holdings: Vec<Holding>,
    transactions: Vec<Transaction>,
}

/// The state after a call of `buy_currency` on `old`.
pub open spec fn buy_post(
    old: Ledger,
    new: Ledger,
    coin: String,
    qty: Numeric,
    user: String,
    ticks: Seq<TimeSeriesData>,
    r: Result<usize, BrokerError>,
) -> bool {
    match buy_result(old.balance_of(user@), qty, price_result(ticks)) {
        Err(e) => r == Err::<usize, BrokerError>(e) && new == old,
        Ok(t) => if !Numeric::add_fits(old.held(user@, coin@), qty) {
            r == Err::<usize, BrokerError>(BrokerError::Overflow) && new == old
        } else {
            &&& r == Ok::<usize, BrokerError>(old.history().len() as usize)
            &&& new.balance_of(user@) == Some(t.new_balance)
            &&& forall|u: Seq<char>| u != user@ ==> #[trigger] new.balance_of(u) == old.balance_of(u)
            &&& new.held(user@, coin@) == Numeric::sum(old.held(user@, coin@), qty)
            &&& forall|u: Seq<char>, c: Seq<char>|
                !(u == user@ && c == coin@) ==> #[trigger] new.held(u, c) == old.held(u, c)
            &&& new.history() == old.history().push(
                Transaction { user_id: user, coin_id: coin, qty, cost: t.cost, side: Side::Buy },
            )
        },
    }
}

/// The state after a call of `sell_currency` on `old`.
pub open spec fn sell_post(
    old: Ledger,
    new: Ledger,
    coin: String,
    qty: Numeric,
    user: String,
    ticks: Seq<TimeSeriesData>,
    r: Result<usize, BrokerError>,
) -> bool {
    match sell_result(old.balance_of(user@), old.held(user@, coin@), qty, price_result(ticks)) {
        Err(e) => r == Err::<usize, BrokerError>(e) && new == old,
        Ok(t) => if !Numeric::sub_fits(old.held(user@, coin@), qty) {
            r == Err::<usize, BrokerError>(BrokerError::Overflow) && new == old
        } else {
            &&& r == Ok::<usize, BrokerError>(old.history().len() as usize)
            &&& new.balance_of(user@) == Some(t.new_balance)
            &&& forall|u: Seq<char>| u != user@ ==> #[trigger] new.balance_of(u) == old.balance_of(u)
            &&& new.held(user@, coin@) == Numeric::difference(old.held(user@, coin@), qty)
            &&& forall|u: Seq<char>, c: Seq<char>|
                !(u == user@ && c == coin@) ==> #[trigger] new.held(u, c) == old.held(u, c)
            &&& new.history() == old.history().push(
                Transaction { user_id: user, coin_id: coin, qty, cost: t.cost, side: Side::Sell },
            )
        },
    }
}

impl Ledger {
    /// Balances are never negative; each user has at most one wallet and
    /// at most one holding per coin.
    pub closed spec fn wf(self) -> bool {
        &&& wallet_ids_unique(self.wallets@)
        &&& forall|i: int|
            0 <= i < self.wallets@.len() ==> (#[trigger] self.wallets@[i]).balance.wf()
                && self.wallets@[i].balance.units() >= 0
        &&& holding_keys_unique(self.holdings@)
        &&& forall|i: int|
            0 <= i < self.holdings@.len() ==> (#[trigger] self.holdings@[i]).qty.scale <= MAX_SCALE
                && self.holdings@[i].qty.units() >= 0
    }

    /// The balance of user `u`, if `u` has a wallet.
    pub closed spec fn balance_of(self, u: Seq<char>) -> Option<Numeric> {
        balance_in(self.wallets@, u)
    }

    /// How much of coin `c` user `u` holds.
    pub closed spec fn held(self, u: Seq<char>, c: Seq<char>) -> Numeric {
        held_in(self.holdings@, u, c)
    }

    /// Every committed trade, oldest first.
    pub closed spec fn history(self) -> Seq<Transaction> {
        self.transactions@
    }

    /// A user's balance together with every holding, valued at the current
    /// price of its coin in `records`.
    pub fn get_portfolio(&self, user_id: &String, records: &Vec<CurrencyData>) -> (r: Result<
        Portfolio,
        BrokerError,
    >)
        requires
            self.wf(),
            forall|i: int| 0 <= i < records@.len() ==> (#[trigger] records@[i]).wf(),
        ensures
            self.balance_of(user_id@) is None ==> r matches Err(BrokerError::NotFound),
            self.balance_of(user_id@) is Some ==> (r is Ok <==> forall|c: Seq<char>|
                #[trigger] self.held(user_id@, c).units() > 0 ==> can_value(
                    self.held(user_id@, c),
                    records@,
                    c,
                )),
            r matches Ok(p) ==> self.balance_of(user_id@) == Some(p.balance) && lists_holdings(
                *self,
                user_id@,
                records@,
                p.positions@,
            ),
            r matches Err(e) ==> (e is NotFound || e is NonPositivePrice || e is Overflow),
    {
        let balance = match self.get_wallet_balance_by_userid(user_id) {
            Some(b) => b,
            None => return Err(BrokerError::NotFound),
        };
        let mut positions: Vec<Position> = Vec::new();
        let mut i: usize = 0;
        while i < self.holdings.len()
            invariant
                self.wf(),
                self.balance_of(user_id@) == Some(balance),
                forall|k: int| 0 <= k < records@.len() ==> (#[trigger] records@[k]).wf(),
                i <= self.holdings@.len(),
                positions_for(self.holdings@.take(i as int), user_id@, records@) == Ok::<
                    Seq<Position>,
                    BrokerError,
                >(positions@),
            decreases self.holdings@.len() - i,
        {
            proof {
                assert(self.holdings@.take(i as int + 1).drop_last() =~= self.holdings@.take(
                    i as int,
                ));
            }
            let h = &self.holdings[i];
            if h.user_id == *user_id && h.qty.is_positive() {
                let k = match first_record_index(records, &h.coin_id) {
                    Some(k) => k,
                    None => {
                        proof {
                            lemma_positions_stop(self.holdings@, user_id@, records@, i as int + 1);
                            self.lemma_portfolio(user_id@, records@);
                        }
                        return Err(BrokerError::NotFound);
                    },
                };
                let rec = &records[k];
                proof {
                    assert(rec.wf());
                    assert(h.qty.scale <= MAX_SCALE);
                }
                if !rec.price.is_positive() {
                    proof {
                        lemma_positions_stop(self.holdings@, user_id@, records@, i as int + 1);
                        self.lemma_portfolio(user_id@, records@);
                    }
                    return Err(BrokerError::NonPositivePrice);
                }
                let value = match h.qty.checked_mul(&rec.price) {
                    Some(v) => v,
                    None => {
                        proof {
                            lemma_positions_stop(self.holdings@, user_id@, records@, i as int + 1);
                            self.lemma_portfolio(user_id@, records@);
                        }
                        return Err(BrokerError::Overflow);
                    },
                };
                positions.push(
                    Position {
                        name: rec.name.clone(),
                        crypto_id: h.coin_id.clone(),
                        current_value: value,
                        qty: h.qty,
                    },
                );
            }
            i = i + 1;
        }
        proof {
            assert(self.holdings@.take(self.holdings@.len() as int) =~= self.holdings@);
            self.lemma_portfolio(user_id@, records@);
        }
        Ok(Portfolio { balance, positions })
    }

    /// The valuation of a user's holdings fails exactly when some coin held
    /// cannot be valued, and otherwise lists every held coin once.
    proof fn lemma_portfolio(self, u: Seq<char>, records: Seq<CurrencyData>)
        requires
            self.wf(),
            forall|i: int| 0 <= i < records.len() ==> (#[trigger] records[i]).wf(),
        ensures
            positions_for(self.holdings@, u, records) is Ok <==> forall|c: Seq<char>|
                #[trigger] self.held(u, c).units() > 0 ==> can_value(self.held(u, c), records, c),
            positions_for(self.holdings@, u, records) matches Ok(ps) ==> lists_holdings(
                self,
                u,
                records,
                ps,
            ),
            positions_for(self.holdings@, u, records) matches Err(e) ==> (e is NotFound
                || e is NonPositivePrice || e is Overflow),
    {
        let hs = self.holdings@;
        lemma_positions_fail(hs, u, records);
        crate::numeric::lemma_sign_of_units(Numeric { mantissa: 0, scale: 0 });
        if positions_for(hs, u, records) is Ok {
            assert forall|c: Seq<char>| #[trigger] self.held(u, c).units() > 0 implies can_value(
                self.held(u, c),
                records,
                c,
            ) by {
                let j = choose|j: int| 0 <= j < hs.len() && holds_key(hs[j], u, c);
                lemma_held_at(hs, j);
                assert(position_of(hs[j], records) is Ok);
            }
            self.lemma_listed(u, records);
        } else {
            let j = choose|j: int|
                0 <= j < hs.len() && hs[j].user_id@ == u && hs[j].qty.units() > 0 && (#[trigger] position_of(
                    hs[j],
                    records,
                )) is Err;
            lemma_held_at(hs, j);
            assert(!can_value(self.held(u, hs[j].coin_id@), records, hs[j].coin_id@));
        }
    }

    proof fn lemma_listed(self, u: Seq<char>, records: Seq<CurrencyData>)
        requires
            self.wf(),
            forall|i: int| 0 <= i < records.len() ==> (#[trigger] records[i]).wf(),
            positions_for(self.holdings@, u, records) is Ok,
        ensures
            lists_holdings(self, u, records, positions_for(self.holdings@, u, records)->Ok_0),
    {
        let hs = self.holdings@;
        let ps = positions_for(hs, u, records)->Ok_0;
        lemma_positions_origin(hs, u, records);
        lemma_positions_distinct(hs, u, records);
        lemma_positions_complete(hs, u, records);
        crate::numeric::lemma_sign_of_units(Numeric { mantissa: 0, scale: 0 });
        assert forall|i: int| 0 <= i < ps.len() implies {
            let k = first_record_of(records, (#[trigger] ps[i]).crypto_id@);
            &&& ps[i].qty == self.held(u, ps[i].crypto_id@)
            &&& ps[i].qty.units() > 0
            &&& 0 <= k < records.len()
            &&& records[k].price.units() > 0
            &&& ps[i].name == records[k].name
            &&& ps[i].current_value == Numeric::product(ps[i].qty, records[k].price)
            &&& ps[i].current_value.units() == Numeric::product_units(ps[i].qty, records[k].price)
        } by {
            assert(valued_from(hs, u, records, ps[i]));
            let j = choose|j: int|
                0 <= j < hs.len() && hs[j].user_id@ == u && hs[j].qty.units() > 0 && position_of(
                    hs[j],
                    records,
                ) == Ok::<Position, BrokerError>(ps[i]);
            lemma_held_at(hs, j);
            lemma_first_record_bound(records, hs[j].coin_id@);
            let k = first_record_of(records, hs[j].coin_id@);
            let q = hs[j].qty;
            let pr = records[k].price;
            assert(fits(q.mantissa * pr.mantissa));
            assert(q.scale <= MAX_SCALE);
            assert(records[k].wf());
            assert(Numeric::product(q, pr).mantissa == q.mantissa * pr.mantissa);
            assert(Numeric::product(q, pr).scale == q.scale + pr.scale);
            vstd::arithmetic::mul::lemma_mul_is_associative(
                hs[j].qty.mantissa as int,
                records[k].price.mantissa as int,
                crate::numeric::pow10(
                    (crate::numeric::UNIT_SCALE - hs[j].qty.scale - records[k].price.scale) as nat,
                ),
            );
        }
        assert forall|c: Seq<char>| #[trigger] self.held(u, c).units() > 0 implies exists|i: int|
            0 <= i < ps.len() && ps[i].crypto_id@ == c by {
            let j = choose|j: int| 0 <= j < hs.len() && holds_key(hs[j], u, c);
            lemma_held_at(hs, j);
            assert(hs[j].user_id@ == u && hs[j].qty.units() > 0);
        }
    }

    /// What the invariant says of one user's balance and holding.
    pub proof fn lemma_values(self, u: Seq<char>, c: Seq<char>)
        requires
            self.wf(),
        ensures
            self.balance_of(u) matches Some(b) ==> b.wf() && b.units() >= 0,
            self.held(u, c).scale <= MAX_SCALE,
            self.held(u, c).units() >= 0,
    {
        if exists|i: int| 0 <= i < self.wallets@.len() && self.wallets@[i].user_id@ == u {
            let i = choose|i: int| 0 <= i < self.wallets@.len() && self.wallets@[i].user_id@ == u;
            assert(self.wallets@[i].balance.wf());
        }
        if exists|i: int| 0 <= i < self.holdings@.len() && holds_key(self.holdings@[i], u, c) {
            let i = choose|i: int|
                0 <= i < self.holdings@.len() && holds_key(self.holdings@[i], u, c);
            assert(self.holdings@[i].qty.scale <= MAX_SCALE);
        } else {
            crate::numeric::lemma_sign_of_units(Numeric { mantissa: 0, scale: 0 });
        }
    }

    pub fn new() -> (r: Ledger)
        ensures
            r.wf(),
            forall|u: Seq<char>| #[trigger] r.balance_of(u) is None,
            forall|u: Seq<char>, c: Seq<char>| #[trigger] r.held(u, c) == (Numeric { mantissa: 0, scale: 0 }),
            forall|u: Seq<char>, c: Seq<char>| #[trigger] r.held(u, c).units() == 0,
            r.history().len() == 0,
    {
        proof {
            crate::numeric::lemma_sign_of_units(Numeric { mantissa: 0, scale: 0 });
        }
        Ledger { wallets: Vec::new(), holdings: Vec::new(), transactions: Vec::new() }
    }

    fn find_wallet(&self, user_id: &String) -> (r: Option<usize>)
        ensures
            r matches Some(i) ==> i < self.wallets@.len() && self.wallets@[i as int].user_id@
                == user_id@,
            r is None ==> forall|j: int|
                0 <= j < self.wallets@.len() ==> self.wallets@[j].user_id@ != user_id@,
    {
        let mut i: usize = 0;
        while i < self.wallets.len()
            invariant
                i <= self.wallets@.len(),
                forall|j: int| 0 <= j < i ==> self.wallets@[j].user_id@ != user_id@,
            decreases self.wallets@.len() - i,
        {
            if self.wallets[i].user_id == *user_id {
                return Some(i);
            }
            i = i + 1;
        }
        None
    }

    fn find_holding(&self, user_id: &String, coin_id: &String) -> (r: Option<usize>)
        ensures
            r matches Some(i) ==> i < self.holdings@.len() && holds_key(
                self.holdings@[i as int],
                user_id@,
                coin_id@,
            ),
            r is None ==> forall|j: int|
                0 <= j < self.holdings@.len() ==> !holds_key(self.holdings@[j], user_id@, coin_id@),
    {
        let mut i: usize = 0;
        while i < self.holdings.len()
            invariant
                i <= self.holdings@.len(),
                forall|j: int|
                    0 <= j < i ==> !holds_key(self.holdings@[j], user_id@, coin_id@),
            decreases self.holdings@.len() - i,
        {
            if self.holdings[i].user_id == *user_id && self.holdings[i].coin_id == *coin_id {
                return Some(i);
            }
            i = i + 1;
        }
        None
    }

    /// The balance of a user, if the user has a wallet.
    pub fn get_wallet_balance_by_userid(&self, user_id: &String) -> (r: Option<Numeric>)
        requires
            self.wf(),
        ensures
            r == self.balance_of(user_id@),
    {
        match self.find_wallet(user_id) {
            Some(i) => {
                proof {
                    lemma_balance_at(self.wallets@, i as int);
                }
                Some(self.wallets[i].balance)
            },
            None => None,
        }
    }

    /// Every committed trade, oldest first.
    pub fn transactions(&self) -> (r: &Vec<Transaction>)
        ensures
            r@ == self.history(),
    {
        &self.transactions
    }

    /// How much of a coin a user holds.
    pub fn held_quantity(&self, user_id: &String, coin_id: &String) -> (r: Numeric)
        requires
            self.wf(),
        ensures
            r == self.held(user_id@, coin_id@),
    {
        match self.find_holding(user_id, coin_id) {
            Some(i) => {
                proof {
                    lemma_held_at(self.holdings@, i as int);
                }
                self.holdings[i].qty
            },
            None => Numeric::zero(),
        }
    }

    /// Sets a user's balance, opening a wallet where there is none.
    pub fn set_wallet_balance_by_userid(&mut self, user_id: &String, bal: Numeric)
        requires
            old(self).wf(),
            bal.wf(),
            bal.units() >= 0,
        ensures
            final(self).wf(),
            final(self).balance_of(user_id@) == Some(bal),
            forall|u: Seq<char>|
                u != user_id@ ==> #[trigger] final(self).balance_of(u) == old(self).balance_of(u),
            forall|u: Seq<char>, c: Seq<char>| #[trigger]
                final(self).held(u, c) == old(self).held(u, c),
            final(self).history() == old(self).history(),
    {
        let w = Wallet { user_id: user_id.clone(), balance: bal };
        match self.find_wallet(user_id) {
            Some(i) => {
                proof {
                    lemma_wallet_update(self.wallets@, i as int, w);
                }
                self.wallets.set(i, w);
            },
            None => {
                proof {
                    lemma_wallet_push(self.wallets@, w);
                }
                self.wallets.push(w);
            },
        }
        proof {
            assert forall|u: Seq<char>| u != user_id@ implies #[trigger] self.balance_of(u) == old(
                self,
            ).balance_of(u) by {}
        }
    }

    /// Adds the daily reward to a user's balance, opening a wallet at zero
    /// where there is none; returns the new balance.
    pub fn daily_reward(&mut self, user_id: &String) -> (r: Result<Numeric, BrokerError>)
        requires
            old(self).wf(),
        ensures
            final(self).wf(),
            ({
                let b = match old(self).balance_of(user_id@) {
                    Some(b) => b,
                    None => Numeric { mantissa: 0, scale: 0 },
                };
                let reward = Numeric { mantissa: DAILY_REWARD as i128, scale: 0 };
                &&& !Numeric::add_fits(b, reward) ==> (r matches Err(BrokerError::Overflow)
                    && *final(self) == *old(self))
                &&& Numeric::add_fits(b, reward) ==> (r matches Ok(n) && n.units() == b.units()
                    + reward.units() && final(self).balance_of(user_id@) == Some(n))
            }),
            forall|u: Seq<char>|
                u != user_id@ ==> #[trigger] final(self).balance_of(u) == old(self).balance_of(u),
            forall|u: Seq<char>, c: Seq<char>| #[trigger]
                final(self).held(u, c) == old(self).held(u, c),
            final(self).history() == old(self).history(),
    {
        let current = self.get_wallet_balance_by_userid(user_id);
        proof {
            self.lemma_values(user_id@, user_id@);
            crate::numeric::lemma_sign_of_units(Numeric { mantissa: 0, scale: 0 });
            crate::numeric::lemma_sign_of_units(Numeric { mantissa: DAILY_REWARD as i128, scale: 0 });
        }
        match rewarded_balance(current) {
            Some(n) => {
                self.set_wallet_balance_by_userid(user_id, n);
                Ok(n)
            },
            None => Err(BrokerError::Overflow),
        }
    }

    /// Buys `qty` of a coin for a user at the coin's latest price in `ticks`:
    /// the cost leaves the balance, the coin joins the holding, and one
    /// transaction is recorded; its index is returned.
    pub fn buy_currency(
        &mut self,
        coin_id: &String,
        qty: Numeric,
        user_id: &String,
        ticks: &Vec<TimeSeriesData>,
    ) -> (r: Result<usize, BrokerError>)
        requires
            old(self).wf(),
            qty.scale <= MAX_SCALE,
            prices_wf(ticks@),
        ensures
            final(self).wf(),
            buy_post(*old(self), *final(self), *coin_id, qty, *user_id, ticks@, r),
    {
        let balance = self.get_wallet_balance_by_userid(user_id);
        let price = latest_price(ticks);
        proof {
            self.lemma_values(user_id@, coin_id@);
            if ticks@.len() > 0 {
                lemma_latest_is_member(ticks@);
            }
        }
        let trade = match buy_outcome(balance, qty, price) {
            Ok(t) => t,
            Err(e) => return Err(e),
        };
        proof {
            let b = balance->Some_0;
            lemma_difference_units(b, trade.cost);
        }
        let old_held = self.held_quantity(user_id, coin_id);
        let new_held = match old_held.checked_add(&qty) {
            Some(h) => h,
            None => return Err(BrokerError::Overflow),
        };
        assert(new_held == Numeric::sum(old_held, qty));
        let i = match self.find_wallet(user_id) {
            Some(i) => i,
            None => return Err(BrokerError::InsufficientFunds),
        };
        let w = Wallet { user_id: user_id.clone(), balance: trade.new_balance };
        proof {
            lemma_wallet_update(self.wallets@, i as int, w);
        }
        self.wallets.set(i, w);
        let h = Holding { user_id: user_id.clone(), coin_id: coin_id.clone(), qty: new_held };
        match self.find_holding(user_id, coin_id) {
            Some(j) => {
                proof {
                    lemma_holding_update(self.holdings@, j as int, h);
                }
                self.holdings.set(j, h);
            },
            None => {
                proof {
                    lemma_holding_push(self.holdings@, h);
                }
                self.holdings.push(h);
            },
        }
        let id = self.transactions.len();
        self.transactions.push(
            Transaction {
                user_id: user_id.clone(),
                coin_id: coin_id.clone(),
                qty,
                cost: trade.cost,
                side: Side::Buy,
            },
        );
        proof {
            assert forall|u: Seq<char>| u != user_id@ implies #[trigger] self.balance_of(u) == old(
                self,
            ).balance_of(u) by {}
            assert forall|u: Seq<char>, c: Seq<char>| !(u == user_id@ && c == coin_id@) implies #[trigger] self.held(
                u,
                c,
            ) == old(self).held(u, c) by {}
        }
        Ok(id)
    }

    /// Sells `qty` of a coin for a user at the coin's latest price in
    /// `ticks`: the proceeds join the balance, the coin leaves the holding,
    /// and one transaction is recorded; its index is returned.
    pub fn sell_currency(
        &mut self,
        coin_id: &String,
        qty: Numeric,
        user_id: &String,
        ticks: &Vec<TimeSeriesData>,
    ) -> (r: Result<usize, BrokerError>)
        requires
            old(self).wf(),
            qty.scale <= MAX_SCALE,
            prices_wf(ticks@),
        ensures
            final(self).wf(),
            sell_post(*old(self), *final(self), *coin_id, qty, *user_id, ticks@, r),
    {
        let balance = self.get_wallet_balance_by_userid(user_id);
        let old_held = self.held_quantity(user_id, coin_id);
        let price = latest_price(ticks);
        proof {
            self.lemma_values(user_id@, coin_id@);
            if ticks@.len() > 0 {
                lemma_latest_is_member(ticks@);
            }
        }
        let trade = match sell_outcome(balance, old_held, qty, price) {
            Ok(t) => t,
            Err(e) => return Err(e),
        };
        proof {
            let b = match balance {
                Some(b) => b,
                None => Numeric { mantissa: 0, scale: 0 },
            };
            lemma_sum_units(b, trade.cost);
            crate::numeric::lemma_sign_of_units(Numeric { mantissa: 0, scale: 0 });
            lemma_product_positive(qty, price->Ok_0);
        }
        let new_held = match old_held.checked_sub(&qty) {
            Some(h) => h,
            None => return Err(BrokerError::Overflow),
        };
        assert(new_held == Numeric::difference(old_held, qty));
        let w = Wallet { user_id: user_id.clone(), balance: trade.new_balance };
        match self.find_wallet(user_id) {
            Some(i) => {
                proof {
                    lemma_wallet_update(self.wallets@, i as int, w);
                }
                self.wallets.set(i, w);
            },
            None => {
                proof {
                    lemma_wallet_push(self.wallets@, w);
                }
                self.wallets.push(w);
            },
        }
        let h = Holding { user_id: user_id.clone(), coin_id: coin_id.clone(), qty: new_held };
        match self.find_holding(user_id, coin_id) {
            Some(j) => {
                proof {
                    lemma_holding_update(self.holdings@, j as int, h);
                }
                self.holdings.set(j, h);
            },
            None => {
                proof {
                    lemma_holding_push(self.holdings@, h);
                }
                self.holdings.push(h);
            },
        }
        let id = self.transactions.len();
        self.transactions.push(
            Transaction {
                user_id: user_id.clone(),
                coin_id: coin_id.clone(),
                qty,
                cost: trade.cost,
                side: Side::Sell,
            },
        );
        proof {
            assert forall|u: Seq<char>| u != user_id@ implies #[trigger] self.balance_of(u) == old(
                self,
            ).balance_of(u) by {}
            assert forall|u: Seq<char>, c: Seq<char>| !(u == user_id@ && c == coin_id@) implies #[trigger] self.held(
                u,
                c,
            ) == old(self).held(u, c) by {}
        }
        Ok(id)
    }
}

proof fn lemma_first_record_bound(records: Seq<CurrencyData>, coin: Seq<char>)
    ensures
        first_record_of(records, coin) < records.len(),
        first_record_of(records, coin) >= 0 ==> records[first_record_of(records, coin)].id@ == coin,
    decreases records.len(),
{
    if records.len() > 0 {
        lemma_first_record_bound(records.drop_last(), coin);
    }
}

/// Position `p` is the valuation of one of user `u`'s non-empty holdings in `hs`.
pub open spec fn valued_from(
    hs: Seq<Holding>,
    u: Seq<char>,
    records: Seq<CurrencyData>,
    p: Position,
) -> bool {
    exists|j: int|
        0 <= j < hs.len() && hs[j].user_id@ == u && hs[j].qty.units() > 0 && position_of(
            hs[j],
            records,
        ) == Ok::<Position, BrokerError>(p)
}

/// Valuing holdings fails exactly when one of the user's non-empty holdings
/// cannot be valued, and then for one of the valuation's own reasons.
proof fn lemma_positions_fail(hs: Seq<Holding>, u: Seq<char>, records: Seq<CurrencyData>)
    ensures
        (positions_for(hs, u, records) is Err) <==> exists|j: int|
            0 <= j < hs.len() && hs[j].user_id@ == u && hs[j].qty.units() > 0 && (#[trigger] position_of(
                hs[j],
                records,
            )) is Err,
        positions_for(hs, u, records) matches Err(e) ==> (e is NotFound || e is NonPositivePrice
            || e is Overflow),
    decreases hs.len(),
{
    if hs.len() > 0 {
        let d = hs.drop_last();
        lemma_positions_fail(d, u, records);
        assert(hs[hs.len() - 1] == hs.last());
        if positions_for(d, u, records) is Err {
            let j = choose|j: int|
                0 <= j < d.len() && d[j].user_id@ == u && d[j].qty.units() > 0 && (#[trigger] position_of(
                    d[j],
                    records,
                )) is Err;
            assert(d[j] == hs[j]);
        } else {
            assert forall|j: int|
                0 <= j < hs.len() - 1 && hs[j].user_id@ == u && hs[j].qty.units() > 0 implies (#[trigger] position_of(
                hs[j],
                records,
            )) is Ok by {
                assert(d[j] == hs[j]);
            }
        }
    }
}

/// Each listed position is the valuation of one of the user's non-empty holdings.
proof fn lemma_positions_origin(hs: Seq<Holding>, u: Seq<char>, records: Seq<CurrencyData>)
    ensures
        positions_for(hs, u, records) matches Ok(ps) ==> forall|i: int|
            0 <= i < ps.len() ==> valued_from(hs, u, records, #[trigger] ps[i]),
    decreases hs.len(),
{
    if hs.len() > 0 {
        let d = hs.drop_last();
        lemma_positions_origin(d, u, records);
        assert(hs[hs.len() - 1] == hs.last());
        if let Ok(ps) = positions_for(hs, u, records) {
            let qs = positions_for(d, u, records)->Ok_0;
            assert forall|i: int| 0 <= i < ps.len() implies valued_from(hs, u, records, #[trigger] ps[i]) by {
                if i < qs.len() {
                    assert(ps[i] == qs[i]);
                    assert(valued_from(d, u, records, qs[i]));
                    let j = choose|j: int|
                        0 <= j < d.len() && d[j].user_id@ == u && d[j].qty.units() > 0 && position_of(
                            d[j],
                            records,
                        ) == Ok::<Position, BrokerError>(qs[i]);
                    assert(d[j] == hs[j]);
                } else {
                    assert(position_of(hs[hs.len() - 1], records) == Ok::<Position, BrokerError>(ps[i]));
                }
            }
        }
    }
}

/// No coin is listed twice.
proof fn lemma_positions_distinct(hs: Seq<Holding>, u: Seq<char>, records: Seq<CurrencyData>)
    requires
        holding_keys_unique(hs),
    ensures
        positions_for(hs, u, records) matches Ok(ps) ==> forall|i: int, k: int|
            0 <= i < k < ps.len() ==> ps[i].crypto_id@ != ps[k].crypto_id@,
    decreases hs.len(),
{
    if hs.len() > 0 {
        let d = hs.drop_last();
        let n = hs.len() - 1;
        assert(holding_keys_unique(d));
        lemma_positions_distinct(d, u, records);
        lemma_positions_origin(d, u, records);
        assert(hs[n] == hs.last());
        if let Ok(ps) = positions_for(hs, u, records) {
            let qs = positions_for(d, u, records)->Ok_0;
            assert forall|i: int, k: int| 0 <= i < k < ps.len() implies ps[i].crypto_id@
                != ps[k].crypto_id@ by {
                assert(ps[i] == qs[i]);
                if k == qs.len() {
                    assert(valued_from(d, u, records, qs[i]));
                    let j = choose|j: int|
                        0 <= j < d.len() && d[j].user_id@ == u && d[j].qty.units() > 0 && position_of(
                            d[j],
                            records,
                        ) == Ok::<Position, BrokerError>(qs[i]);
                    assert(d[j] == hs[j]);
                    assert(!(hs[j].user_id@ == hs[n].user_id@ && hs[j].coin_id@ == hs[n].coin_id@));
                } else {
                    assert(ps[k] == qs[k]);
                }
            }
        }
    }
}

/// Every non-empty holding of the user is listed.
proof fn lemma_positions_complete(hs: Seq<Holding>, u: Seq<char>, records: Seq<CurrencyData>)
    ensures
        positions_for(hs, u, records) matches Ok(ps) ==> forall|j: int|
            0 <= j < hs.len() && hs[j].user_id@ == u && (#[trigger] hs[j]).qty.units() > 0
                ==> exists|i: int| 0 <= i < ps.len() && ps[i].crypto_id@ == hs[j].coin_id@,
    decreases hs.len(),
{
    if hs.len() > 0 {
        let d = hs.drop_last();
        let n = hs.len() - 1;
        lemma_positions_complete(d, u, records);
        assert(hs[n] == hs.last());
        if let Ok(ps) = positions_for(hs, u, records) {
            let qs = positions_for(d, u, records)->Ok_0;
            assert forall|j: int|
                0 <= j < hs.len() && hs[j].user_id@ == u && (#[trigger] hs[j]).qty.units() > 0
                    implies exists|i: int| 0 <= i < ps.len() && ps[i].crypto_id@ == hs[j].coin_id@ by {
                if j < n {
                    assert(d[j] == hs[j]);
                    let i = choose|i: int| 0 <= i < qs.len() && qs[i].crypto_id@ == d[j].coin_id@;
                    assert(ps[i] == qs[i]);
                } else {
                    assert(ps[qs.len() as int].crypto_id == hs[n].coin_id);
                }
            }
        }
    }
}

/// Once the valuation of a prefix fails, so does that of the whole.
proof fn lemma_positions_stop(hs: Seq<Holding>, u: Seq<char>, records: Seq<CurrencyData>, k: int)
    requires
        0 <= k <= hs.len(),
        positions_for(hs.take(k), u, records) is Err,
    ensures
        positions_for(hs, u, records) == positions_for(hs.take(k), u, records),
    decreases hs.len() - k,
{
    if k < hs.len() {
        assert(hs.take(k + 1).drop_last() =~= hs.take(k));
        lemma_positions_stop(hs, u, records, k + 1);
    } else {
        assert(hs.take(k) =~= hs);
    }
}

/// What the buys among `txs` cost together.
pub open spec fn total_cost(txs: Seq<Transaction>) -> int
    decreases txs.len(),
{
    if txs.len() == 0 {
        0
    } else {
        total_cost(txs.drop_last()) + txs.last().cost.units()
    }
}

/// One buy by a user who has a wallet: either nothing changes, or one buy
/// by that user is recorded, and its cost is exactly what left the balance.
pub proof fn lemma_buy_step(
    old: Ledger,
    new: Ledger,
    coin: String,
    qty: Numeric,
    user: String,
    ticks: Seq<TimeSeriesData>,
    r: Result<usize, BrokerError>,
)
    requires
        old.wf(),
        buy_post(old, new, coin, qty, user, ticks, r),
        qty.scale <= MAX_SCALE,
        prices_wf(ticks),
        old.balance_of(user@) is Some,
    ensures
        new.balance_of(user@) is Some,
        r is Err ==> new == old,
        r is Ok ==> {
            &&& new.history() == old.history().push(new.history().last())
            &&& new.history().last().side == Side::Buy
            &&& new.history().last().user_id == user
            &&& new.history().last().cost.units() > 0
            &&& new.history().last().cost.units() == old.balance_of(user@)->Some_0.units()
                - new.balance_of(user@)->Some_0.units()
        },
{
    old.lemma_values(user@, coin@);
    let out = buy_result(old.balance_of(user@), qty, price_result(ticks));
    if let Ok(t) = out {
        if Numeric::add_fits(old.held(user@, coin@), qty) {
            let b = old.balance_of(user@)->Some_0;
            let p = price_result(ticks)->Ok_0;
            lemma_latest_is_member(ticks);
            lemma_product_positive(qty, p);
            lemma_difference_units(b, t.cost);
            assert(new.history().last() == Transaction {
                user_id: user,
                coin_id: coin,
                qty,
                cost: t.cost,
                side: Side::Buy,
            });
        }
    }
}

/// A buy that the balance covers takes exactly `qty * price` from the
/// buyer's balance, records one buy at that cost, and leaves every other
/// wallet as it was (amounts that fit the decimal representation).
pub proof fn lemma_buy_spends_exactly(
    old: Ledger,
    new: Ledger,
    coin: String,
    qty: Numeric,
    user: String,
    ticks: Seq<TimeSeriesData>,
    r: Result<usize, BrokerError>,
    price: Numeric,
    balance: Numeric,
)
    requires
        old.wf(),
        buy_post(old, new, coin, qty, user, ticks, r),
        qty.scale <= MAX_SCALE,
        prices_wf(ticks),
        qty.units() > 0,
        price_result(ticks) == Ok::<Numeric, BrokerError>(price),
        old.balance_of(user@) == Some(balance),
        Numeric::product_units(qty, price) <= balance.units(),
        fits(qty.mantissa * price.mantissa),
        Numeric::sub_fits(balance, Numeric::product(qty, price)),
        Numeric::add_fits(old.held(user@, coin@), qty),
    ensures
        r == Ok::<usize, BrokerError>(old.history().len() as usize),
        new.balance_of(user@) matches Some(nb) && nb.units() == balance.units()
            - Numeric::product_units(qty, price),
        new.history() == old.history().push(
            Transaction {
                user_id: user,
                coin_id: coin,
                qty,
                cost: Numeric::product(qty, price),
                side: Side::Buy,
            },
        ),
        Numeric::product(qty, price).units() == Numeric::product_units(qty, price),
        forall|u: Seq<char>| u != user@ ==> #[trigger] new.balance_of(u) == old.balance_of(u),
{
    old.lemma_values(user@, coin@);
    lemma_latest_is_member(ticks);
    let cost = Numeric::product(qty, price);
    assert(cost.units() == Numeric::product_units(qty, price)) by {
        vstd::arithmetic::mul::lemma_mul_is_associative(
            qty.mantissa as int,
            price.mantissa as int,
            crate::numeric::pow10((crate::numeric::UNIT_SCALE - qty.scale - price.scale) as nat),
        );
    }
    lemma_difference_units(balance, cost);
}

/// A buy that costs more than the balance is refused as unaffordable and
/// changes nothing (amounts that fit the decimal representation).
pub proof fn lemma_buy_beyond_balance_refused(
    old: Ledger,
    new: Ledger,
    coin: String,
    qty: Numeric,
    user: String,
    ticks: Seq<TimeSeriesData>,
    r: Result<usize, BrokerError>,
    price: Numeric,
    balance: Numeric,
)
    requires
        old.wf(),
        buy_post(old, new, coin, qty, user, ticks, r),
        qty.scale <= MAX_SCALE,
        prices_wf(ticks),
        price_result(ticks) == Ok::<Numeric, BrokerError>(price),
        old.balance_of(user@) == Some(balance),
        Numeric::product_units(qty, price) > balance.units(),
        fits(qty.mantissa * price.mantissa),
        Numeric::sub_fits(balance, Numeric::product(qty, price)),
    ensures
        r matches Err(BrokerError::InsufficientFunds),
        new == old,
{
    old.lemma_values(user@, coin@);
    lemma_latest_is_member(ticks);
    crate::numeric::lemma_sign_of_units(qty);
    crate::numeric::lemma_sign_of_units(price);
    crate::numeric::lemma_pow10_positive(
        (crate::numeric::UNIT_SCALE - qty.scale - price.scale) as nat,
    );
    let k = crate::numeric::pow10((crate::numeric::UNIT_SCALE - qty.scale - price.scale) as nat);
    assert(qty.mantissa > 0) by (nonlinear_arith)
        requires
            qty.mantissa * price.mantissa * k > balance.units(),
            balance.units() >= 0,
            price.mantissa > 0,
            k >= 1,
    ;
    let cost = Numeric::product(qty, price);
    assert(cost.units() == Numeric::product_units(qty, price)) by {
        vstd::arithmetic::mul::lemma_mul_is_associative(
            qty.mantissa as int,
            price.mantissa as int,
            k,
        );
    }
}

/// A quantity that is zero or negative is refused, whatever the balance and
/// the price, and changes nothing; for buys and for sales alike.
pub proof fn lemma_nonpositive_quantity_refused(
    old: Ledger,
    new_after_buy: Ledger,
    new_after_sell: Ledger,
    coin: String,
    qty: Numeric,
    user: String,
    ticks: Seq<TimeSeriesData>,
    r_buy: Result<usize, BrokerError>,
    r_sell: Result<usize, BrokerError>,
)
    requires
        buy_post(old, new_after_buy, coin, qty, user, ticks, r_buy),
        sell_post(old, new_after_sell, coin, qty, user, ticks, r_sell),
        qty.units() <= 0,
    ensures
        r_buy matches Err(BrokerError::InvalidQuantity),
        new_after_buy == old,
        r_sell matches Err(BrokerError::InvalidQuantity),
        new_after_sell == old,
{
}

/// However many buys of one user run one after another, together they never
/// spend more than the balance the user started with: the buys recorded
/// meanwhile cost exactly what left the balance, and the balance stays at
/// or above zero.
pub proof fn lemma_serial_buys_never_overspend(
    states: Seq<Ledger>,
    coins: Seq<String>,
    qtys: Seq<Numeric>,
    ticks: Seq<Seq<TimeSeriesData>>,
    results: Seq<Result<usize, BrokerError>>,
    user: String,
)
    requires
        states.len() >= 1,
        coins.len() == states.len() - 1,
        qtys.len() == states.len() - 1,
        ticks.len() == states.len() - 1,
        results.len() == states.len() - 1,
        forall|i: int| 0 <= i < states.len() ==> (#[trigger] states[i]).wf(),
        forall|i: int|
            0 <= i < states.len() - 1 ==> buy_post(
                #[trigger] states[i],
                states[i + 1],
                coins[i],
                qtys[i],
                user,
                ticks[i],
                results[i],
            ) && qtys[i].scale <= MAX_SCALE && prices_wf(ticks[i]),
        states[0].balance_of(user@) is Some,
    ensures
        ({
            let last = states.last();
            let start = states[0].history().len() as int;
            &&& last.balance_of(user@) is Some
            &&& start <= last.history().len()
            &&& last.history().subrange(0, start) == states[0].history()
            &&& total_cost(last.history().subrange(start, last.history().len() as int))
                == states[0].balance_of(user@)->Some_0.units() - last.balance_of(user@)->Some_0.units()
            &&& total_cost(last.history().subrange(start, last.history().len() as int))
                <= states[0].balance_of(user@)->Some_0.units()
        }),
    decreases states.len(),
{
    let start = states[0].history().len() as int;
    if states.len() == 1 {
        assert(states[0].history().subrange(start, start).len() == 0);
        assert(states[0].history().subrange(0, start) =~= states[0].history());
        states[0].lemma_values(user@, user@);
    } else {
        let n = states.len() - 1;
        let prev = states.drop_last();
        assert(prev.last() == states[n - 1]);
        assert forall|i: int| 0 <= i < prev.len() - 1 implies buy_post(
            #[trigger] prev[i],
            prev[i + 1],
            coins.drop_last()[i],
            qtys.drop_last()[i],
            user,
            ticks.drop_last()[i],
            results.drop_last()[i],
        ) && qtys.drop_last()[i].scale <= MAX_SCALE && prices_wf(ticks.drop_last()[i]) by {
            assert(states[i] == prev[i]);
        }
        assert forall|i: int| 0 <= i < prev.len() implies (#[trigger] prev[i]).wf() by {
            assert(states[i] == prev[i]);
        }
        lemma_serial_buys_never_overspend(
            prev,
            coins.drop_last(),
            qtys.drop_last(),
            ticks.drop_last(),
            results.drop_last(),
            user,
        );
        let a = states[n - 1];
        let b = states[n];
        assert(buy_post(a, b, coins[n - 1], qtys[n - 1], user, ticks[n - 1], results[n - 1]));
        lemma_buy_step(a, b, coins[n - 1], qtys[n - 1], user, ticks[n - 1], results[n - 1]);
        b.lemma_values(user@, user@);
        let ha = a.history();
        let hb = b.history();
        if results[n - 1] is Ok {
            assert(hb.subrange(start, hb.len() as int).drop_last() =~= ha.subrange(
                start,
                ha.len() as int,
            ));
            assert(hb.subrange(0, start) =~= ha.subrange(0, start));
        }
    }
}

} // verus!
