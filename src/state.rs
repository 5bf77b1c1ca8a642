use vstd::prelude::*;

use crate::types::{InitArgs, WeatherResult};

verus! {

/// The registry's persistent state: the current reading, a log of content
/// hashes in insertion order, the collection's name and symbol, and the
/// counter from which transaction ids are drawn.
#[derive(Clone, Debug)]
pub struct State {
    pub weather_data: WeatherResult,
    pub hashes: Vec<(String, crate::types::Hash)>,
    pub name: String,
    pub symbol: String,
    pub txid: u128,
}

/// The mathematical value of a `State`.
pub struct StateView {
    pub weather: WeatherResult,
    pub hashes: Seq<(Seq<char>, Seq<char>)>,
    pub name: Seq<char>,
    pub symbol: Seq<char>,
    pub txid: u128,
}

/// The unit of persistence: exactly one state.
#[derive(Clone, Debug)]
pub struct StableState {
    pub state: State,
}

impl View for State {
    type V = StateView;

    open spec fn view(&self) -> StateView {
        StateView {
            weather: self.weather_data,
            hashes: hash_log_view(self.hashes@),
            name: self.name@,
            symbol: self.symbol@,
            txid: self.txid,
        }
    }
}

/// The hash log as (key, hash) pairs of texts, in order.
pub open spec fn hash_log_view(log: Seq<(String, crate::types::Hash)>) -> Seq<(Seq<char>, Seq<char>)> {
    log.map_values(|p: (String, crate::types::Hash)| (p.0@, p.1.hash_value@))
}

/// The state made from `args`: their reading, name and symbol, an empty
/// hash log and a transaction counter at zero.
pub open spec fn initial_view(args: InitArgs) -> StateView {
    StateView {
        weather: args.logo,
        hashes: Seq::empty(),
        name: args.name@,
        symbol: args.symbol@,
        txid: 0,
    }
}

/// One issuance from a counter holding `t`: the id handed out and the
/// counter's next value, which wraps at the end of the 128-bit range.
pub open spec fn issue_step(t: u128) -> (u128, u128) {
    (t, if t == u128::MAX { 0 } else { (t + 1) as u128 })
}

/// The ids handed out by `n` issuances in a row from a counter holding `t`.
pub open spec fn issued(t: u128, n: nat) -> Seq<u128>
    decreases n,
{
    if n == 0 {
        Seq::empty()
    } else {
        seq![issue_step(t).0] + issued(issue_step(t).1, (n - 1) as nat)
    }
}

/// The counter's value after `n` issuances in a row from `t`.
pub open spec fn counter_after(t: u128, n: nat) -> u128
    decreases n,
{
    if n == 0 {
        t
    } else {
        counter_after(issue_step(t).1, (n - 1) as nat)
    }
}

impl State {
    /// The state a registry starts from: the given reading, name and symbol,
    /// an empty hash log and a transaction counter at zero.
    pub fn new(args: InitArgs) -> (r: State)
        ensures
            r@ == initial_view(args),
    {
        let r = State {
            weather_data: args.logo,
            hashes: Vec::new(),
            name: args.name,
            symbol: args.symbol,
            txid: 0,
        };
        proof {
            assert(r@.hashes =~= Seq::empty());
        }
        r
    }

    /// Hands out the current transaction id and advances the counter by one.
    pub fn next_txid(&mut self) -> (r: u128)
        ensures
            (r, final(self).txid) == issue_step(old(self).txid),
            final(self).weather_data == old(self).weather_data,
            final(self).hashes == old(self).hashes,
            final(self).name == old(self).name,
            final(self).symbol == old(self).symbol,
    {
        let txid = self.txid;
        self.txid = self.txid.wrapping_add(1);
        txid
    }

    /// Stores a new reading as it is given.
    pub fn set_weather(&mut self, reading: WeatherResult)
        ensures
            final(self)@ == (StateView { weather: reading, ..old(self)@ }),
    {
        self.weather_data = reading;
    }

    /// Appends a hash to the log under `key`; earlier entries, also those
    /// under the same key, stay as they are.
    pub fn record_hash(&mut self, key: String, hash: crate::types::Hash)
        ensures
            final(self)@ == (StateView {
                hashes: old(self)@.hashes.push((key@, hash.hash_value@)),
                ..old(self)@
            }),
    {
        let ghost k = key@;
        let ghost h = hash.hash_value@;
        self.hashes.push((key, hash));
        proof {
            assert(self@.hashes =~= old(self)@.hashes.push((k, h)));
        }
    }
}

/// Transaction ids are dense and strictly increasing: `n` issuances in a row
/// from a counter holding `t`, where `t + n` does not pass the end of the
/// 128-bit range, hand out `t, t + 1, ..., t + n - 1` and leave the counter
/// at `t + n`.
pub proof fn lemma_issued_dense(t: u128, n: nat)
    requires
        t + n <= u128::MAX + 1,
    ensures
        issued(t, n).len() == n,
        forall|i: int| 0 <= i < n ==> #[trigger] issued(t, n)[i] == t + i,
        forall|i: int, j: int| 0 <= i < j < n ==> issued(t, n)[i] < issued(t, n)[j],
        t + n <= u128::MAX ==> counter_after(t, n) == t + n,
    decreases n,
{
    if n > 0 {
        let next = issue_step(t).1;
        if n > 1 {
            assert(next == t + 1);
        }
        if t == u128::MAX {
            assert(n == 1);
            assert(issued(next, 0) =~= Seq::<u128>::empty());
            assert(issued(t, n) =~= seq![t]);
        } else {
            lemma_issued_dense(next, (n - 1) as nat);
            assert forall|i: int| 0 <= i < n implies #[trigger] issued(t, n)[i] == t + i by {
                if i > 0 {
                    assert(issued(t, n)[i] == issued(next, (n - 1) as nat)[i - 1]);
                }
            }
        }
    }
}

} // verus!
