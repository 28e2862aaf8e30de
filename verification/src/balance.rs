//! The balance store: the authoritative per-account token balance, with
//! deposit, withdraw, transfer, balance queries, total supply and
//! registration, and the conservation invariant that the total supply is
//! the sum of all balances.

use vstd::prelude::*;

verus! {

/// One registered account and its balance.
pub struct AccountBalance {
    pub account_id: String,
    pub balance: u128,
}

/// Mathematical value of one account.
#[verifier::ext_equal]
pub ghost struct AccountV {
    pub id: Seq<char>,
    pub balance: nat,
}

impl View for AccountBalance {
    type V = AccountV;

    open spec fn view(&self) -> AccountV {
        AccountV { id: self.account_id@, balance: self.balance as nat }
    }
}

/// The values carried by the account table.
pub open spec fn accounts_view(s: Seq<AccountBalance>) -> Seq<AccountV> {
    s.map_values(|a: AccountBalance| a@)
}

/// Index of the first account named `id`, or `-1` if none is.
pub open spec fn find_acct(s: Seq<AccountV>, id: Seq<char>) -> int
    decreases s.len(),
{
    if s.len() == 0 {
        -1
    } else if s[0].id == id {
        0
    } else if find_acct(s.drop_first(), id) == -1 {
        -1
    } else {
        find_acct(s.drop_first(), id) + 1
    }
}

pub open spec fn registered(s: Seq<AccountV>, id: Seq<char>) -> bool {
    find_acct(s, id) != -1
}

/// The balance held under `id`; an unregistered account holds nothing.
pub open spec fn bal_of(s: Seq<AccountV>, id: Seq<char>) -> nat {
    if find_acct(s, id) == -1 {
        0
    } else {
        s[find_acct(s, id)].balance
    }
}

pub open spec fn sum_balances(s: Seq<AccountV>) -> nat
    decreases s.len(),
{
    if s.len() == 0 {
        0
    } else {
        s[0].balance + sum_balances(s.drop_first())
    }
}

pub open spec fn unique_ids(s: Seq<AccountV>) -> bool {
    forall|i: int, j: int| 0 <= i < j < s.len() ==> s[i].id != s[j].id
}

/// What the first-match index means: it lands on a match and nothing
/// before it matches, and `-1` means nothing matches at all.
pub proof fn lemma_find_props(s: Seq<AccountV>, id: Seq<char>)
    ensures
        find_acct(s, id) == -1 ==> forall|j: int| 0 <= j < s.len() ==> (#[trigger] s[j]).id != id,
        find_acct(s, id) != -1 ==> 0 <= find_acct(s, id) < s.len() && s[find_acct(s, id)].id == id
            && forall|j: int| 0 <= j < find_acct(s, id) ==> (#[trigger] s[j]).id != id,
    decreases s.len(),
{
    if s.len() > 0 && s[0].id != id {
        lemma_find_props(s.drop_first(), id);
        assert forall|j: int| 1 <= j < s.len() implies #[trigger] s[j] == s.drop_first()[j - 1] by {}
    }
}

/// With unique identifiers the first match is the only match.
pub proof fn lemma_find_at(s: Seq<AccountV>, i: int)
    requires
        unique_ids(s),
        0 <= i < s.len(),
    ensures
        find_acct(s, s[i].id) == i,
{
    lemma_find_props(s, s[i].id);
    let f = find_acct(s, s[i].id);
    if f == -1 {
        assert(s[i].id != s[i].id);
    }
}

/// Rewriting one entry without renaming it moves no first-match index.
pub proof fn lemma_find_update(s: Seq<AccountV>, i: int, v: AccountV, x: Seq<char>)
    requires
        0 <= i < s.len(),
        v.id == s[i].id,
    ensures
        find_acct(s.update(i, v), x) == find_acct(s, x),
    decreases s.len(),
{
    if i == 0 {
        assert(s.update(0, v).drop_first() =~= s.drop_first());
    } else {
        assert(s.update(i, v).drop_first() =~= s.drop_first().update(i - 1, v));
        lemma_find_update(s.drop_first(), i - 1, v, x);
    }
}

/// Where every lookup lands after one entry is rewritten in place.
pub proof fn lemma_bal_of_update(s: Seq<AccountV>, i: int, v: AccountV, x: Seq<char>)
    requires
        unique_ids(s),
        0 <= i < s.len(),
        v.id == s[i].id,
    ensures
        registered(s.update(i, v), x) == registered(s, x),
        bal_of(s.update(i, v), x) == if x == s[i].id {
            v.balance
        } else {
            bal_of(s, x)
        },
        unique_ids(s.update(i, v)),
{
    lemma_find_update(s, i, v, x);
    lemma_find_props(s, x);
    if x == s[i].id {
        lemma_find_at(s, i);
    }
}

/// Where every lookup lands after a fresh account is appended.
pub proof fn lemma_find_push(s: Seq<AccountV>, a: AccountV, x: Seq<char>)
    ensures
        find_acct(s, x) != -1 ==> find_acct(s.push(a), x) == find_acct(s, x),
        find_acct(s, x) == -1 && a.id == x ==> find_acct(s.push(a), x) == s.len() as int,
        find_acct(s, x) == -1 && a.id != x ==> find_acct(s.push(a), x) == -1,
    decreases s.len(),
{
    if s.len() == 0 {
        assert(s.push(a)[0] == a);
        assert(s.push(a).drop_first() =~= Seq::<AccountV>::empty());
        assert(find_acct(s.push(a).drop_first(), x) == -1);
        if a.id == x {
            assert(find_acct(s.push(a), x) == 0);
        } else {
            assert(find_acct(s.push(a), x) == -1);
        }
    } else {
        assert(s.push(a)[0] == s[0]);
        assert(s.push(a).drop_first() =~= s.drop_first().push(a));
        lemma_find_props(s, x);
        lemma_find_props(s.drop_first(), x);
        lemma_find_push(s.drop_first(), a, x);
        assert(find_acct(s.push(a).drop_first(), x) == find_acct(s.drop_first().push(a), x));
        let fd = find_acct(s.drop_first(), x);
        if s[0].id == x {
            assert(find_acct(s.push(a), x) == 0);
            assert(find_acct(s, x) == 0);
        } else if fd != -1 {
            assert(find_acct(s, x) == fd + 1);
            assert(find_acct(s.push(a), x) == fd + 1);
        } else if a.id == x {
            assert(find_acct(s, x) == -1);
            assert(find_acct(s.push(a).drop_first(), x) == s.len() - 1);
            assert(find_acct(s.push(a), x) == s.len() as int);
        } else {
            assert(find_acct(s, x) == -1);
            assert(find_acct(s.push(a), x) == -1);
        }
    }
}

/// Where every lookup lands after a fresh, unregistered account joins.
pub proof fn lemma_bal_of_push(s: Seq<AccountV>, a: AccountV, x: Seq<char>)
    requires
        unique_ids(s),
        !registered(s, a.id),
    ensures
        registered(s.push(a), x) == (registered(s, x) || x == a.id),
        bal_of(s.push(a), x) == if x == a.id {
            a.balance
        } else {
            bal_of(s, x)
        },
        unique_ids(s.push(a)),
{
    lemma_find_push(s, a, x);
    lemma_find_props(s, x);
    lemma_find_props(s, a.id);
    assert(s.push(a)[s.len() as int] == a);
    assert forall|i: int, j: int|
        0 <= i < j < s.push(a).len() implies s.push(a)[i].id != s.push(a)[j].id by {
        if j < s.len() {
        } else {
            assert(s.push(a)[j] == a);
        }
    }
}

/// Rewriting one balance moves the sum by exactly the difference.
pub proof fn lemma_sum_update(s: Seq<AccountV>, i: int, v: AccountV)
    requires
        0 <= i < s.len(),
    ensures
        sum_balances(s.update(i, v)) + s[i].balance == sum_balances(s) + v.balance,
    decreases s.len(),
{
    if i == 0 {
        assert(s.update(0, v).drop_first() =~= s.drop_first());
    } else {
        assert(s.update(i, v).drop_first() =~= s.drop_first().update(i - 1, v));
        lemma_sum_update(s.drop_first(), i - 1, v);
    }
}

/// Appending an account adds its balance to the sum.
pub proof fn lemma_sum_push(s: Seq<AccountV>, a: AccountV)
    ensures
        sum_balances(s.push(a)) == sum_balances(s) + a.balance,
    decreases s.len(),
{
    if s.len() == 0 {
        assert(s.push(a).drop_first() =~= Seq::<AccountV>::empty());
        reveal_with_fuel(sum_balances, 2);
    } else {
        assert(s.push(a)[0] == s[0]);
        assert(s.push(a).drop_first() =~= s.drop_first().push(a));
        lemma_sum_push(s.drop_first(), a);
    }
}

/// No single balance exceeds the sum of all of them.
pub proof fn lemma_bal_le_sum(s: Seq<AccountV>, i: int)
    requires
        0 <= i < s.len(),
    ensures
        s[i].balance <= sum_balances(s),
    decreases s.len(),
{
    if i > 0 {
        lemma_bal_le_sum(s.drop_first(), i - 1);
    }
}

/// The balance store. Well-formed states register each account once and
/// keep `total_supply` equal to the sum of all balances.
pub struct BalanceStore {
    accounts: Vec<AccountBalance>,
    total_supply: u128,
}

/// Mathematical value of the store.
#[verifier::ext_equal]
pub ghost struct BalancesV {
    pub accounts: Seq<AccountV>,
    pub total: nat,
}

impl View for BalanceStore {
    type V = BalancesV;

    closed spec fn view(&self) -> BalancesV {
        BalancesV { accounts: accounts_view(self.accounts@), total: self.total_supply as nat }
    }
}

pub open spec fn store_wf(b: BalancesV) -> bool {
    &&& unique_ids(b.accounts)
    &&& sum_balances(b.accounts) == b.total
    &&& b.total <= u128::MAX
}

impl BalanceStore {
    /// An empty store: no accounts, no supply.
    pub fn new() -> (s: Self)
        ensures
            s@.accounts.len() == 0,
            s@.total == 0,
            store_wf(s@),
    {
        let s = BalanceStore { accounts: Vec::new(), total_supply: 0 };
        proof {
            assert(s@.accounts =~= Seq::<AccountV>::empty());
        }
        s
    }

    /// First-match linear scan for an account.
    fn find_index(&self, account_id: &String) -> (r: Option<usize>)
        ensures
            match r {
                Some(i) => i < self@.accounts.len() && find_acct(self@.accounts, account_id@)
                    == i as int,
                None => find_acct(self@.accounts, account_id@) == -1,
            },
    {
        let mut i: usize = 0;
        while i < self.accounts.len()
            invariant
                i <= self@.accounts.len(),
                self@.accounts.len() == self.accounts@.len(),
                forall|j: int| 0 <= j < i ==> (#[trigger] self@.accounts[j]).id != account_id@,
            decreases self.accounts@.len() - i,
        {
            if self.accounts[i].account_id.eq(account_id) {
                proof {
                    assert(self@.accounts[i as int] == self.accounts@[i as int]@);
                    lemma_find_props(self@.accounts, account_id@);
                    let f = find_acct(self@.accounts, account_id@);
                    if f == -1 {
                        assert(self@.accounts[i as int].id != account_id@);
                    } else if f < i as int {
                        assert(self@.accounts[f].id != account_id@);
                    } else if f > i as int {
                        assert(self@.accounts[i as int].id != account_id@);
                    }
                }
                return Some(i);
            }
            i = i + 1;
        }
        proof {
            lemma_find_props(self@.accounts, account_id@);
        }
        None
    }

    /// Registers `account_id` with a zero balance; a second registration
    /// changes nothing.
    pub fn register(&mut self, account_id: &String)
        requires
            store_wf(old(self)@),
        ensures
            store_wf(final(self)@),
            final(self)@.total == old(self)@.total,
            registered(old(self)@.accounts, account_id@) ==> final(self)@ == old(self)@,
            !registered(old(self)@.accounts, account_id@) ==> final(self)@.accounts == old(
                self,
            )@.accounts.push(AccountV { id: account_id@, balance: 0 }),
    {
        let ghost olds = self@.accounts;
        match self.find_index(account_id) {
            Some(_) => {},
            None => {
                let entry = AccountBalance { account_id: account_id.clone(), balance: 0 };
                proof {
                    lemma_sum_push(olds, AccountV { id: account_id@, balance: 0 });
                    lemma_bal_of_push(olds, AccountV { id: account_id@, balance: 0 }, account_id@);
                }
                self.accounts.push(entry);
                proof {
                    assert(self@.accounts =~= olds.push(
                        AccountV { id: account_id@, balance: 0 },
                    ));
                }
            },
        }
    }

    /// The balance held under `account_id` (zero when unregistered).
    pub fn balance_of(&self, account_id: &String) -> (r: u128)
        ensures
            r as nat == bal_of(self@.accounts, account_id@),
    {
        match self.find_index(account_id) {
            Some(i) => self.accounts[i].balance,
            None => 0,
        }
    }

    /// The total token supply.
    pub fn total_supply(&self) -> (r: u128)
        ensures
            r as nat == self@.total,
    {
        self.total_supply
    }

    /// Adds `amount` to a registered account and to the supply.
    pub fn deposit(&mut self, account_id: &String, amount: u128)
        requires
            store_wf(old(self)@),
            registered(old(self)@.accounts, account_id@),
            old(self)@.total + amount <= u128::MAX,
        ensures
            store_wf(final(self)@),
            final(self)@.accounts == old(self)@.accounts.update(
                find_acct(old(self)@.accounts, account_id@),
                AccountV {
                    id: account_id@,
                    balance: (bal_of(old(self)@.accounts, account_id@) + amount) as nat,
                },
            ),
            final(self)@.total == old(self)@.total + amount,
    {
        let ghost olds = self@.accounts;
        match self.find_index(account_id) {
            Some(i) => {
                proof {
                    lemma_find_props(olds, account_id@);
                    lemma_bal_le_sum(olds, i as int);
                    lemma_sum_update(
                        olds,
                        i as int,
                        AccountV { id: olds[i as int].id, balance: (olds[i as int].balance + amount) as nat },
                    );
                }
                let b = self.accounts[i].balance;
                self.accounts[i].balance = b + amount;
                self.total_supply = self.total_supply + amount;
                proof {
                    assert(self@.accounts =~= olds.update(
                        i as int,
                        AccountV { id: account_id@, balance: (b + amount) as nat },
                    ));
                    lemma_sum_update(
                        olds,
                        i as int,
                        AccountV { id: account_id@, balance: (b + amount) as nat },
                    );
                }
            },
            None => {
                proof {
                    assert(false);
                }
            },
        }
    }

    /// Removes `amount` from a registered account holding at least that
    /// much, and from the supply: this is the burn primitive.
    pub fn withdraw(&mut self, account_id: &String, amount: u128)
        requires
            store_wf(old(self)@),
            registered(old(self)@.accounts, account_id@),
            amount as nat <= bal_of(old(self)@.accounts, account_id@),
        ensures
            store_wf(final(self)@),
            final(self)@.accounts == old(self)@.accounts.update(
                find_acct(old(self)@.accounts, account_id@),
                AccountV {
                    id: account_id@,
                    balance: (bal_of(old(self)@.accounts, account_id@) - amount) as nat,
                },
            ),
            final(self)@.total == old(self)@.total - amount,
    {
        let ghost olds = self@.accounts;
        match self.find_index(account_id) {
            Some(i) => {
                proof {
                    lemma_find_props(olds, account_id@);
                    lemma_bal_le_sum(olds, i as int);
                }
                let b = self.accounts[i].balance;
                self.accounts[i].balance = b - amount;
                self.total_supply = self.total_supply - amount;
                proof {
                    assert(self@.accounts =~= olds.update(
                        i as int,
                        AccountV { id: account_id@, balance: (b - amount) as nat },
                    ));
                    lemma_sum_update(
                        olds,
                        i as int,
                        AccountV { id: account_id@, balance: (b - amount) as nat },
                    );
                }
            },
            None => {
                proof {
                    assert(false);
                }
            },
        }
    }

    /// Moves `amount` between registered accounts; the supply is kept.
    pub fn transfer(&mut self, from: &String, to: &String, amount: u128)
        requires
            store_wf(old(self)@),
            registered(old(self)@.accounts, from@),
            registered(old(self)@.accounts, to@),
            amount as nat <= bal_of(old(self)@.accounts, from@),
        ensures
            store_wf(final(self)@),
            final(self)@.total == old(self)@.total,
            forall|x: Seq<char>|
                registered(final(self)@.accounts, x) == registered(old(self)@.accounts, x),
            from@ == to@ ==> forall|x: Seq<char>|
                bal_of(final(self)@.accounts, x) == bal_of(old(self)@.accounts, x),
            from@ != to@ ==> bal_of(final(self)@.accounts, from@) == bal_of(
                old(self)@.accounts,
                from@,
            ) - amount,
            from@ != to@ ==> bal_of(final(self)@.accounts, to@) == bal_of(
                old(self)@.accounts,
                to@,
            ) + amount,
            forall|x: Seq<char>|
                x != from@ && x != to@ ==> bal_of(final(self)@.accounts, x) == bal_of(
                    old(self)@.accounts,
                    x,
                ),
    {
        let ghost olds = self@.accounts;
        let ghost fi = find_acct(olds, from@);
        let ghost bfrom = bal_of(olds, from@);
        let ghost v = AccountV { id: from@, balance: (bfrom - amount) as nat };
        proof {
            lemma_find_props(olds, from@);
        }
        self.withdraw(from, amount);
        let ghost mids = self@.accounts;
        proof {
            lemma_bal_of_update(olds, fi, v, to@);
        }
        self.deposit(to, amount);
        let ghost ti = find_acct(mids, to@);
        let ghost w = AccountV { id: to@, balance: (bal_of(mids, to@) + amount) as nat };
        proof {
            lemma_find_props(olds, from@);
            lemma_find_props(mids, to@);
            assert forall|x: Seq<char>|
                registered(self@.accounts, x) == registered(olds, x) by {
                lemma_bal_of_update(olds, fi, v, x);
                lemma_bal_of_update(mids, ti, w, x);
            }
            assert forall|x: Seq<char>| x != from@ && x != to@ implies bal_of(self@.accounts, x)
                == bal_of(olds, x) by {
                lemma_bal_of_update(olds, fi, v, x);
                lemma_bal_of_update(mids, ti, w, x);
            }
            lemma_bal_of_update(olds, fi, v, from@);
            lemma_bal_of_update(mids, ti, w, from@);
            lemma_bal_of_update(olds, fi, v, to@);
            lemma_bal_of_update(mids, ti, w, to@);
            if from@ == to@ {
                assert forall|x: Seq<char>| bal_of(self@.accounts, x) == bal_of(olds, x) by {
                    lemma_bal_of_update(olds, fi, v, x);
                    lemma_bal_of_update(mids, ti, w, x);
                }
            }
        }
    }
}

} // verus!
