//! The ledger: every account's balance of every asset.

use vstd::prelude::*;
use crate::account::Account;
use crate::asset::Asset;
use crate::error::ExchangeError;
use crate::lookup::{first_at, index_of, lemma_index_stable, lemma_index_unique};
use crate::order::AccountId;

verus! {

/// What a ledger is: the accounts that have a record, and the balance of
/// every account in every asset (0 where nothing was ever credited).
pub struct LedgerView {
    pub known: Set<Seq<char>>,
    pub balances: Map<(Seq<char>, Seq<char>), u64>,
}

impl LedgerView {
    /// The ledger without any account.
    pub open spec fn empty() -> LedgerView {
        LedgerView { known: Set::empty(), balances: Map::total(|k: (Seq<char>, Seq<char>)| 0u64) }
    }

    /// A balance is recorded for every account and asset.
    pub open spec fn wf(self) -> bool {
        forall|k: (Seq<char>, Seq<char>)| self.balances.dom().contains(k)
    }

    /// The balance of `account` in `asset`.
    pub open spec fn balance(self, account: Seq<char>, asset: Seq<char>) -> u64 {
        self.balances[(account, asset)]
    }

    /// The ledger after `amount` of `asset` has been credited to `account`. A
    /// balance that would pass `u64::MAX` stops there.
    pub open spec fn credit(self, account: Seq<char>, asset: Seq<char>, amount: u64) -> LedgerView {
        LedgerView {
            known: self.known.insert(account),
            balances: self.balances.insert(
                (account, asset),
                if self.balance(account, asset) + amount > u64::MAX {
                    u64::MAX
                } else {
                    (self.balance(account, asset) + amount) as u64
                },
            ),
        }
    }

    /// Whether `amount` of `asset` can be taken from `account`.
    pub open spec fn can_debit(self, account: Seq<char>, asset: Seq<char>, amount: u64) -> bool {
        self.known.contains(account) && self.balance(account, asset) >= amount
    }

    /// The ledger after `amount` of `asset` has been taken from `account`.
    pub open spec fn debit(self, account: Seq<char>, asset: Seq<char>, amount: u64) -> LedgerView
        recommends
            self.can_debit(account, asset, amount),
    {
        LedgerView {
            known: self.known,
            balances: self.balances.insert(
                (account, asset),
                (self.balance(account, asset) - amount) as u64,
            ),
        }
    }
}

/// The ids of a list of accounts, in the same order.
pub open spec fn account_keys(accounts: Seq<Account>) -> Seq<Seq<char>> {
    Seq::new(accounts.len(), |i: int| accounts[i].id@)
}

/// The ledger of the exchange. The first record for an account id counts.
pub struct AccountManager {
    accounts: Vec<Account>,
}

impl View for AccountManager {
    type V = LedgerView;

    closed spec fn view(&self) -> LedgerView {
        LedgerView {
            known: Set::new(|a: Seq<char>| self.knows(a)),
            balances: Map::total(|k: (Seq<char>, Seq<char>)| self.held(k.0, k.1)),
        }
    }
}

impl AccountManager {
    /// Whether `account` has a record.
    closed spec fn knows(&self, account: Seq<char>) -> bool {
        account_keys(self.accounts@).contains(account)
    }

    /// The balance of `account` in `asset`: 0 without a record.
    closed spec fn held(&self, account: Seq<char>, asset: Seq<char>) -> u64 {
        let keys = account_keys(self.accounts@);
        if keys.contains(account) {
            self.accounts@[index_of(keys, account)].balance_of(asset)
        } else {
            0
        }
    }

    /// The account records, in the order in which they were opened.
    pub closed spec fn records(&self) -> Seq<Account> {
        self.accounts@
    }

    /// Hands out the account records. An account is known exactly when a
    /// record carries its id, and the first such record holds its balances.
    pub fn accounts(&self) -> (r: &Vec<Account>)
        ensures
            r@ == self.records(),
            forall|a: Seq<char>| self@.known.contains(a) == account_keys(r@).contains(a),
            forall|a: Seq<char>, s: Seq<char>|
                account_keys(r@).contains(a) ==> #[trigger] self@.balance(a, s) == r@[index_of(
                    account_keys(r@),
                    a,
                )].balance_of(s),
    {
        &self.accounts
    }

    /// Creates a ledger without any account.
    pub fn new() -> (ledger: Self)
        ensures
            ledger@ == LedgerView::empty(),
    {
        let ledger = Self { accounts: Vec::new() };
        assert(ledger@.known =~= LedgerView::empty().known);
        assert(ledger@.balances =~= LedgerView::empty().balances);
        ledger
    }

    /// The place of the first record for `account_id`.
    fn find(&self, account_id: &AccountId) -> (r: Option<usize>)
        ensures
            match r {
                Some(i) => first_at(account_keys(self.accounts@), account_id@, i as int),
                None => !account_keys(self.accounts@).contains(account_id@),
            },
    {
        let mut i: usize = 0;
        while i < self.accounts.len()
            invariant
                i <= self.accounts.len(),
                forall|j: int| 0 <= j < i ==> #[trigger] account_keys(self.accounts@)[j] != account_id@,
            decreases self.accounts.len() - i,
        {
            if self.accounts[i].id.same(account_id) {
                return Some(i);
            }
            i += 1;
        }
        None
    }

    /// Sets one balance of the account at place `i`, the first record for its id.
    fn store(&mut self, i: usize, asset: Asset, value: u64)
        requires
            first_at(account_keys(old(self).accounts@), old(self).accounts@[i as int].id@, i as int),
        ensures
            final(self)@.known == old(self)@.known,
            final(self)@.balances == old(self)@.balances.insert(
                (old(self).accounts@[i as int].id@, asset@),
                value,
            ),
    {
        let ghost keys = account_keys(self.accounts@);
        let ghost before = self.accounts@;
        let ghost account = self.accounts@[i as int].id@;
        self.accounts[i].set_balance(asset, value);
        proof {
            assert(account_keys(self.accounts@) =~= keys);
            lemma_index_unique(keys, account, i as int);
            assert(self@.known =~= old(self)@.known);
            assert forall|k: (Seq<char>, Seq<char>)|
                self.held(k.0, k.1) == if k == (account, asset@) {
                    value
                } else {
                    old(self).held(k.0, k.1)
                } by {
                if keys.contains(k.0) && k.0 != account {
                    lemma_index_stable(keys, keys, k.0);
                    assert(self.accounts@[index_of(keys, k.0)] == before[index_of(keys, k.0)]);
                }
            }
            assert(self@.balances =~= old(self)@.balances.insert((account, asset@), value));
        }
    }

    /// Opens a record for `account_id`, which has none, with nothing in it.
    fn open(&mut self, account_id: AccountId) -> (i: usize)
        requires
            !account_keys(old(self).accounts@).contains(account_id@),
        ensures
            first_at(account_keys(final(self).accounts@), account_id@, i as int),
            final(self).accounts@[i as int].id@ == account_id@,
            final(self)@.known == old(self)@.known.insert(account_id@),
            final(self)@.balances == old(self)@.balances,
    {
        let ghost keys = account_keys(self.accounts@);
        let ghost id = account_id@;
        let i = self.accounts.len();
        self.accounts.push(Account::new(account_id));
        proof {
            let now = account_keys(self.accounts@);
            assert(now =~= keys.push(id));
            assert(first_at(now, id, i as int));
            lemma_index_unique(now, id, i as int);
            assert forall|a: Seq<char>| self.knows(a) == (old(self).knows(a) || a == id) by {
                if keys.contains(a) {
                    lemma_index_stable(keys, now, a);
                } else if now.contains(a) {
                    let j = choose|j: int| 0 <= j < now.len() && now[j] == a;
                    if j < i {
                        assert(keys[j] == a);
                    }
                }
            }
            assert(self@.known =~= old(self)@.known.insert(id));
            assert forall|k: (Seq<char>, Seq<char>)| self.held(k.0, k.1) == old(self).held(k.0, k.1) by {
                if keys.contains(k.0) {
                    lemma_index_stable(keys, now, k.0);
                }
            }
            assert(self@.balances =~= old(self)@.balances);
        }
        i
    }

    /// Credits `amount` of `asset` to the account, whose record is opened
    /// where it has none. A balance that would pass `u64::MAX` stops there.
    pub fn add_balance(&mut self, account_id: AccountId, asset: Asset, amount: u64)
        ensures
            final(self)@ == old(self)@.credit(account_id@, asset@, amount),
    {
        let ghost id = account_id@;
        let i = match self.find(&account_id) {
            Some(i) => {
                assert(self@.known =~= self@.known.insert(id));
                i
            },
            None => self.open(account_id),
        };
        proof {
            lemma_index_unique(account_keys(self.accounts@), id, i as int);
        }
        let balance = self.accounts[i].balance(&asset);
        self.store(i, asset, balance.saturating_add(amount));
    }

    /// Takes `amount` of `asset` from the account. Fails, and changes
    /// nothing, where the account has no record or holds less than `amount`.
    pub fn remove_balance(&mut self, account_id: AccountId, asset: Asset, amount: u64) -> (r: Result<
        (),
        ExchangeError,
    >)
        ensures
            match r {
                Ok(_) => {
                    &&& old(self)@.can_debit(account_id@, asset@, amount)
                    &&& final(self)@ == old(self)@.debit(account_id@, asset@, amount)
                    &&& final(self)@.balance(account_id@, asset@) == old(self)@.balance(account_id@, asset@)
                        - amount
                },
                Err(ExchangeError::AccountUnknown) => {
                    &&& !old(self)@.known.contains(account_id@)
                    &&& *final(self) == *old(self)
                },
                Err(ExchangeError::InsufficientBalance) => {
                    &&& old(self)@.known.contains(account_id@)
                    &&& old(self)@.balance(account_id@, asset@) < amount
                    &&& *final(self) == *old(self)
                },
                Err(_) => false,
            },
    {
        match self.find(&account_id) {
            None => Err(ExchangeError::AccountUnknown),
            Some(i) => {
                proof {
                    lemma_index_unique(account_keys(self.accounts@), account_id@, i as int);
                }
                let balance = self.accounts[i].balance(&asset);
                if balance < amount {
                    Err(ExchangeError::InsufficientBalance)
                } else {
                    self.store(i, asset, balance - amount);
                    Ok(())
                }
            },
        }
    }

    /// Reads the balance of the account in `asset`: 0 where the account has a
    /// record but never held the asset. Fails where it has no record.
    pub fn get_balance(&self, account_id: AccountId, asset: Asset) -> (r: Result<u64, ExchangeError>)
        ensures
            match r {
                Ok(b) => self@.known.contains(account_id@) && b == self@.balance(account_id@, asset@),
                Err(ExchangeError::AccountUnknown) => !self@.known.contains(account_id@),
                Err(_) => false,
            },
    {
        match self.find(&account_id) {
            None => Err(ExchangeError::AccountUnknown),
            Some(i) => {
                proof {
                    lemma_index_unique(account_keys(self.accounts@), account_id@, i as int);
                }
                Ok(self.accounts[i].balance(&asset))
            },
        }
    }

    /// The ledger records a balance for every account and asset, and an
    /// account without a record holds nothing.
    pub proof fn lemma_view_wf(&self)
        ensures
            self@.wf(),
            forall|account: Seq<char>, asset: Seq<char>|
                !self@.known.contains(account) ==> #[trigger] self@.balance(account, asset) == 0,
    {
    }
}

/// A debit never overdraws: where it can be made, the balance goes down by
/// exactly the amount and stays at or above zero, and no other balance moves.
pub proof fn lemma_debit_never_overdraws(
    ledger: LedgerView,
    account: Seq<char>,
    asset: Seq<char>,
    amount: u64,
)
    requires
        ledger.wf(),
        ledger.can_debit(account, asset, amount),
    ensures
        ledger.debit(account, asset, amount).wf(),
        ledger.debit(account, asset, amount).balance(account, asset) == ledger.balance(account, asset)
            - amount,
        ledger.debit(account, asset, amount).balance(account, asset) >= 0,
        forall|a: Seq<char>, s: Seq<char>|
            (a, s) != (account, asset) ==> #[trigger] ledger.debit(account, asset, amount).balance(a, s)
                == ledger.balance(a, s),
{
}

/// A credit that follows a debit of the same amount on the same balance
/// gives the ledger back.
pub proof fn lemma_credit_undoes_debit(
    ledger: LedgerView,
    account: Seq<char>,
    asset: Seq<char>,
    amount: u64,
)
    requires
        ledger.wf(),
        ledger.can_debit(account, asset, amount),
    ensures
        ledger.debit(account, asset, amount).credit(account, asset, amount) == ledger,
{
    let back = ledger.debit(account, asset, amount).credit(account, asset, amount);
    assert(back.known =~= ledger.known);
    assert(back.balances =~= ledger.balances);
}

} // verus!
