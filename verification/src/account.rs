//! One account and what it holds.

use vstd::prelude::*;
use crate::asset::Asset;
use crate::lookup::{first_at, index_of, lemma_index_stable, lemma_index_unique};
use crate::order::{AccountId, Quantity};

verus! {

/// The asset symbols of a list of holdings, in the same order.
pub open spec fn asset_keys(balances: Seq<(Asset, Quantity)>) -> Seq<Seq<char>> {
    Seq::new(balances.len(), |i: int| balances[i].0@)
}

/// An account: its id and its balance of each asset it has ever held. The
/// first entry for an asset counts.
pub struct Account {
    pub id: AccountId,
    pub balances: Vec<(Asset, Quantity)>,
}

impl Account {
    /// The balance of `asset`: 0 where the account has no entry for it.
    pub open spec fn balance_of(&self, asset: Seq<char>) -> u64 {
        let keys = asset_keys(self.balances@);
        if keys.contains(asset) {
            self.balances@[index_of(keys, asset)].1.0
        } else {
            0
        }
    }

    /// Creates an account that holds nothing.
    pub fn new(id: AccountId) -> (account: Self)
        ensures
            account.id == id,
            account.balances@.len() == 0,
            forall|asset: Seq<char>| account.balance_of(asset) == 0,
    {
        Self { id, balances: Vec::new() }
    }

    /// The place of the first entry for `asset`.
    fn find(&self, asset: &Asset) -> (r: Option<usize>)
        ensures
            match r {
                Some(i) => first_at(asset_keys(self.balances@), asset@, i as int),
                None => !asset_keys(self.balances@).contains(asset@),
            },
    {
        let mut i: usize = 0;
        while i < self.balances.len()
            invariant
                i <= self.balances.len(),
                forall|j: int| 0 <= j < i ==> #[trigger] asset_keys(self.balances@)[j] != asset@,
            decreases self.balances.len() - i,
        {
            if self.balances[i].0.same(asset) {
                return Some(i);
            }
            i += 1;
        }
        None
    }

    /// Reads the balance of `asset`.
    pub fn balance(&self, asset: &Asset) -> (b: u64)
        ensures
            b == self.balance_of(asset@),
    {
        match self.find(asset) {
            Some(i) => {
                proof {
                    lemma_index_unique(asset_keys(self.balances@), asset@, i as int);
                }
                self.balances[i].1.0
            },
            None => 0,
        }
    }

    /// Sets the balance of `asset` and leaves every other balance as it is.
    pub fn set_balance(&mut self, asset: Asset, value: u64)
        ensures
            final(self).id == old(self).id,
            forall|a: Seq<char>| #[trigger]
                final(self).balance_of(a) == if a == asset@ {
                    value
                } else {
                    old(self).balance_of(a)
                },
    {
        let ghost before = self.balances@;
        let ghost keys = asset_keys(before);
        match self.find(&asset) {
            Some(i) => {
                self.balances[i].1 = Quantity(value);
                proof {
                    let now = asset_keys(self.balances@);
                    assert(now =~= keys);
                    lemma_index_unique(keys, asset@, i as int);
                    assert forall|a: Seq<char>| #[trigger]
                        self.balance_of(a) == if a == asset@ {
                            value
                        } else {
                            old(self).balance_of(a)
                        } by {
                        if a != asset@ && keys.contains(a) {
                            lemma_index_stable(keys, keys, a);
                            assert(self.balances@[index_of(keys, a)] == before[index_of(keys, a)]);
                        }
                    }
                }
            },
            None => {
                self.balances.push((asset, Quantity(value)));
                proof {
                    let now = asset_keys(self.balances@);
                    let n = keys.len() as int;
                    assert(now =~= keys.push(asset@));
                    assert(first_at(now, asset@, n));
                    lemma_index_unique(now, asset@, n);
                    assert forall|a: Seq<char>| #[trigger]
                        self.balance_of(a) == if a == asset@ {
                            value
                        } else {
                            old(self).balance_of(a)
                        } by {
                        if a != asset@ {
                            if keys.contains(a) {
                                lemma_index_stable(keys, now, a);
                            } else if now.contains(a) {
                                let j = choose|j: int| 0 <= j < now.len() && now[j] == a;
                                assert(keys[j] == a);
                            }
                        }
                    }
                }
            },
        }
    }
}

} // verus!
