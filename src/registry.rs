use vstd::prelude::*;

use crate::state::{initial_view, issue_step, State, StateView};
use crate::types::{Error, Identity, InitArgs, MetadataPart, Nft, WeatherResult};

verus! {

/// A token registry: the persistent state together with the tokens, where
/// the token with id `i` is the `i`-th one created. Token ids and
/// transaction ids are drawn from two separate counters.
pub struct Registry {
    state: State,
    nfts: Vec<Nft>,
}

impl Registry {
    /// The registry's persistent state.
    pub closed spec fn spec_state(&self) -> State {
        self.state
    }

    /// The tokens, in the order of their ids.
    pub closed spec fn tokens(&self) -> Seq<Nft> {
        self.nfts@
    }

    /// Each token's id is its place in the registry, and no token is owned by
    /// the null identity.
    pub open spec fn wf(&self) -> bool {
        forall|i: int|
            #![trigger self.tokens()[i]]
            0 <= i < self.tokens().len() ==> self.tokens()[i].id == i
                && !self.tokens()[i].owner.spec_is_null()
    }

    /// A registry with no tokens, whose state starts from `args`.
    pub fn new(args: InitArgs) -> (r: Registry)
        ensures
            r.wf(),
            r.tokens() == Seq::<Nft>::empty(),
            r.spec_state()@ == initial_view(args),
    {
        let r = Registry { state: State::new(args), nfts: Vec::new() };
        proof {
            assert(r.tokens() =~= Seq::<Nft>::empty());
        }
        r
    }

    /// A registry with no tokens around a state restored from a snapshot.
    pub fn restore(state: State) -> (r: Registry)
        ensures
            r.wf(),
            r.tokens() == Seq::<Nft>::empty(),
            r.spec_state() == state,
    {
        let r = Registry { state, nfts: Vec::new() };
        proof {
            assert(r.tokens() =~= Seq::<Nft>::empty());
        }
        r
    }

    /// Stores a new token owned by `owner` under the next unused token id and
    /// returns that id. Fails with `ZeroAddress` if `owner` is null, and with
    /// `Other` if every token id is taken. The transaction counter is not
    /// touched.
    pub fn create(&mut self, owner: Identity, metadata: Vec<MetadataPart>, content: Vec<u8>) -> (r:
        Result<u64, Error>)
        requires
            old(self).wf(),
        ensures
            final(self).wf(),
            old(self).spec_state() == final(self).spec_state(),
            match r {
                Ok(id) => {
                    &&& !owner.spec_is_null()
                    &&& id == old(self).tokens().len()
                    &&& final(self).tokens() == old(self).tokens().push(
                        Nft { owner, id, metadata, content },
                    )
                },
                Err(e) => {
                    &&& final(self).tokens() == old(self).tokens()
                    &&& if owner.spec_is_null() {
                        e == Error::ZeroAddress
                    } else {
                        e == Error::Other && old(self).tokens().len() >= u64::MAX
                    }
                },
            },
    {
        if owner.is_null() {
            return Err(Error::ZeroAddress);
        }
        let id = self.nfts.len() as u64;
        if id == u64::MAX {
            return Err(Error::Other);
        }
        self.nfts.push(Nft { owner, id, metadata, content });
        Ok(id)
    }

    /// The token with id `id`. Fails with `InvalidTokenId` if no token has
    /// that id.
    pub fn lookup(&self, id: u64) -> (r: Result<&Nft, Error>)
        ensures
            match r {
                Ok(t) => id < self.tokens().len() && *t == self.tokens()[id as int],
                Err(e) => id >= self.tokens().len() && e == Error::InvalidTokenId,
            },
    {
        if id as usize >= self.nfts.len() || id > usize::MAX as u64 {
            return Err(Error::InvalidTokenId);
        }
        Ok(&self.nfts[id as usize])
    }

    /// Hands token `id` to `new_owner` on behalf of `caller`, and returns the
    /// transaction id drawn for it. `approved` says whether the caller has
    /// been approved for this token by the party that manages approvals.
    /// Fails, changing nothing, with `ZeroAddress` if `new_owner` is null;
    /// else with `InvalidTokenId` if no token has that id; else with
    /// `Unauthorized` if the caller neither owns the token nor is approved.
    pub fn transfer(&mut self, id: u64, new_owner: Identity, caller: &Identity, approved: bool) -> (r:
        Result<u128, Error>)
        requires
            old(self).wf(),
        ensures
            final(self).wf(),
            r is Err ==> *final(self) == *old(self),
            new_owner.spec_is_null() ==> r == Err::<u128, Error>(Error::ZeroAddress),
            !new_owner.spec_is_null() && id >= old(self).tokens().len() ==> r == Err::<u128, Error>(
                Error::InvalidTokenId,
            ),
            !new_owner.spec_is_null() && id < old(self).tokens().len() ==> {
                let t = old(self).tokens()[id as int];
                if caller@ == t.owner@ || approved {
                    &&& r == Ok::<u128, Error>(issue_step(old(self).spec_state().txid).0)
                    &&& final(self).spec_state() == (State {
                        txid: issue_step(old(self).spec_state().txid).1,
                        ..old(self).spec_state()
                    })
                    &&& final(self).tokens() == old(self).tokens().update(
                        id as int,
                        Nft { owner: new_owner, ..t },
                    )
                } else {
                    r == Err::<u128, Error>(Error::Unauthorized)
                }
            },
    {
        if new_owner.is_null() {
            return Err(Error::ZeroAddress);
        }
        if id as usize >= self.nfts.len() || id > usize::MAX as u64 {
            return Err(Error::InvalidTokenId);
        }
        let i = id as usize;
        if !caller.same_as(&self.nfts[i].owner) && !approved {
            return Err(Error::Unauthorized);
        }
        let ghost t = self.nfts@[i as int];
        self.nfts[i].owner = new_owner;
        let txid = self.state.next_txid();
        proof {
            assert(self.tokens()[i as int] == (Nft { owner: new_owner, ..t }));
            assert(self.tokens() =~= old(self).tokens().update(id as int, Nft { owner: new_owner, ..t }));
        }
        Ok(txid)
    }

    /// The registry's persistent state.
    pub fn state(&self) -> (r: &State)
        ensures
            *r == self.spec_state(),
    {
        &self.state
    }

    /// Stores a new reading; the tokens stay as they are.
    pub fn set_weather(&mut self, reading: WeatherResult)
        requires
            old(self).wf(),
        ensures
            final(self).wf(),
            final(self).tokens() == old(self).tokens(),
            final(self).spec_state() == (State { weather_data: reading, ..old(self).spec_state() }),
    {
        self.state.weather_data = reading;
        proof {
            assert(self.tokens() == old(self).tokens());
        }
    }

    /// Appends a hash to the state's log under `key`; the tokens stay as they are.
    pub fn record_hash(&mut self, key: String, hash: crate::types::Hash)
        requires
            old(self).wf(),
        ensures
            final(self).wf(),
            final(self).tokens() == old(self).tokens(),
            final(self).spec_state()@ == (StateView {
                hashes: old(self).spec_state()@.hashes.push((key@, hash.hash_value@)),
                ..old(self).spec_state()@
            }),
    {
        self.state.record_hash(key, hash);
        proof {
            assert(self.tokens() == old(self).tokens());
        }
    }
}

} // verus!
