//! The contract aggregate: the intent ledger and the balance store behind
//! the owner-only entry points, the burn-window gate, and the batch
//! settlement scheduler.

use vstd::prelude::*;

use crate::balance::{
    bal_of, find_acct, lemma_bal_le_sum, lemma_bal_of_push, lemma_bal_of_update, lemma_find_props,
    registered, store_wf, AccountV, BalanceStore, BalancesV,
};
use crate::errors::Error;
use crate::ledger::{
    find_entry, find_entry_index, has_entry, intents_contain_id, intents_have_unsettled,
    ledger_has_unsettled, ledger_view, ledger_wf, lemma_lfind_props, lemma_pledges_of_push,
    lemma_pledges_of_update, pledges_of, unique_accounts, EntryV, IntentEntry,
};
use crate::pledge::{
    has_intent_id, has_unsettled, pledge_wf, pledges_view, PledgeV, SettleStatus, StatusV,
    StripeIntent,
};
use crate::settle::{
    balance_after, capture_plan, lemma_plan_len, lemma_settle_basic, lemma_settle_noop,
    plan_view, settle_intents, settle_pledges,
};

verus! {

/// The whole on-chain state: owner and marketplace identities, the balance
/// store, the intent ledger, the advisory burn-window flag, and two ghost
/// tallies (everything ever minted, everything ever burned) that carry the
/// conservation law.
pub struct Contract {
    owner_id: String,
    marketplace_id: String,
    token: BalanceStore,
    intents: Vec<IntentEntry>,
    window_open: bool,
    minted: Ghost<nat>,
    burned: Ghost<nat>,
}

/// Mathematical value of the contract state.
#[verifier::ext_equal]
pub ghost struct ContractV {
    pub owner: Seq<char>,
    pub marketplace: Seq<char>,
    pub balances: Seq<AccountV>,
    pub total: nat,
    pub ledger: Seq<EntryV>,
    pub window_open: bool,
    pub minted: nat,
    pub burned: nat,
}

impl View for Contract {
    type V = ContractV;

    closed spec fn view(&self) -> ContractV {
        ContractV {
            owner: self.owner_id@,
            marketplace: self.marketplace_id@,
            balances: self.token@.accounts,
            total: self.token@.total,
            ledger: ledger_view(self.intents@),
            window_open: self.window_open,
            minted: self.minted@,
            burned: self.burned@,
        }
    }
}

/// The state invariant: the balance store and the ledger are well formed,
/// every account that ever minted is registered, and the supply is exactly
/// what was minted and not yet burned.
pub open spec fn wf(cv: ContractV) -> bool {
    &&& store_wf(BalancesV { accounts: cv.balances, total: cv.total })
    &&& ledger_wf(cv.ledger)
    &&& forall|i: int|
        0 <= i < cv.ledger.len() ==> registered(cv.balances, (#[trigger] cv.ledger[i]).account)
    &&& cv.burned <= cv.minted
    &&& cv.total == cv.minted - cv.burned
}

/// The record a mint appends: a fresh, unsettled pledge.
pub open spec fn minted_pledge(a: Seq<char>, id: Seq<char>, amount: nat) -> PledgeV {
    PledgeV { account: a, id: id, amount: amount, status: StatusV::Unsettled }
}

/// Whether account `a` already holds a pledge named `id`.
pub open spec fn is_duplicate(cv: ContractV, a: Seq<char>, id: Seq<char>) -> bool {
    has_intent_id(pledges_of(cv.ledger, a), id)
}

/// The whole effect of settling one account: its pledges run through the
/// FIFO pass against its balance, the leftover balance is written back,
/// the burned difference leaves the supply. An account without a ledger
/// entry settles to nothing.
pub open spec fn settle_account_spec(cv: ContractV, a: Seq<char>) -> ContractV {
    let li = find_entry(cv.ledger, a);
    let bi = find_acct(cv.balances, a);
    if li == -1 || bi == -1 {
        cv
    } else {
        let ps = cv.ledger[li].pledges;
        let b = cv.balances[bi].balance;
        let nb = balance_after(ps, b);
        ContractV {
            ledger: cv.ledger.update(li, (EntryV { account: a, pledges: settle_pledges(ps, b) })),
            balances: cv.balances.update(bi, (AccountV { id: a, balance: nb })),
            total: (cv.total - (b - nb)) as nat,
            burned: (cv.burned + (b - nb)) as nat,
            ..cv
        }
    }
}

/// The capture instructions settling one account returns.
pub open spec fn plan_of(cv: ContractV, a: Seq<char>) -> Seq<(Seq<char>, nat)> {
    let li = find_entry(cv.ledger, a);
    let bi = find_acct(cv.balances, a);
    if li == -1 || bi == -1 {
        Seq::<(Seq<char>, nat)>::empty()
    } else {
        capture_plan(cv.ledger[li].pledges, cv.balances[bi].balance)
    }
}

/// Settling one account keeps the state invariant.
pub proof fn lemma_settle_account_wf(cv: ContractV, a: Seq<char>)
    requires
        wf(cv),
    ensures
        wf(settle_account_spec(cv, a)),
{
    let li = find_entry(cv.ledger, a);
    let bi = find_acct(cv.balances, a);
    if li != -1 && bi != -1 {
        let cv2 = settle_account_spec(cv, a);
        let ps = cv.ledger[li].pledges;
        let b = cv.balances[bi].balance;
        let nb = balance_after(ps, b);
        lemma_settle_basic(ps, b);
        lemma_lfind_props(cv.ledger, a);
        lemma_find_props(cv.balances, a);
        lemma_bal_le_sum(cv.balances, bi);
        let w = AccountV { id: a, balance: nb };
        crate::balance::lemma_sum_update(cv.balances, bi, w);
        lemma_bal_of_update(cv.balances, bi, w, a);
        let l2 = cv2.ledger;
        let b2 = cv2.balances;
        let e2 = EntryV { account: a, pledges: settle_pledges(ps, b) };
        assert forall|i: int, j: int|
            0 <= i < l2.len() && 0 <= j < (#[trigger] l2[i]).pledges.len() implies (
        #[trigger] l2[i].pledges[j]).account == l2[i].account && pledge_wf(l2[i].pledges[j]) by {
            if i == li {
                assert(cv.ledger[i].pledges[j].account == cv.ledger[i].account);
                assert(pledge_wf(cv.ledger[i].pledges[j]));
            } else {
                assert(l2[i] == cv.ledger[i]);
            }
        }
        lemma_pledges_of_update(cv.ledger, li, e2, a);
        assert forall|i: int|
            0 <= i < l2.len() implies registered(b2, (#[trigger] l2[i]).account) by {
            let x = l2[i].account;
            lemma_bal_of_update(cv.balances, bi, w, x);
            if i == li {
                assert(x == a);
            } else {
                assert(l2[i] == cv.ledger[i]);
            }
        }
    }
}

/// Settling an account with no unsettled pledge changes nothing and
/// instructs nothing: settlement is terminal and repeatable.
pub proof fn lemma_settled_account_noop(cv: ContractV, a: Seq<char>)
    requires
        wf(cv),
        !has_unsettled(pledges_of(cv.ledger, a)),
    ensures
        settle_account_spec(cv, a) == cv,
        plan_of(cv, a).len() == 0,
{
    let li = find_entry(cv.ledger, a);
    let bi = find_acct(cv.balances, a);
    if li != -1 && bi != -1 {
        lemma_lfind_props(cv.ledger, a);
        lemma_find_props(cv.balances, a);
        let ps = cv.ledger[li].pledges;
        let b = cv.balances[bi].balance;
        lemma_settle_noop(ps, b);
        assert(cv.ledger.update(li, EntryV { account: a, pledges: settle_pledges(ps, b) })
            =~~= cv.ledger);
        assert(cv.balances.update(bi, AccountV { id: a, balance: balance_after(ps, b) })
            =~~= cv.balances);
        assert(settle_account_spec(cv, a) =~~= cv);
    }
}

/// The accounts a batch pass selects: the first `lim` entries, in ledger
/// order, that still hold an unsettled pledge.
pub open spec fn select_unsettled(l: Seq<EntryV>, lim: nat) -> Seq<Seq<char>>
    decreases l.len(),
{
    if lim == 0 || l.len() == 0 {
        Seq::<Seq<char>>::empty()
    } else if has_unsettled(l[0].pledges) {
        seq![l[0].account] + select_unsettled(l.drop_first(), (lim - 1) as nat)
    } else {
        select_unsettled(l.drop_first(), lim)
    }
}

/// Settling a list of accounts, one after the other.
pub open spec fn settle_accounts_spec(cv: ContractV, accts: Seq<Seq<char>>) -> ContractV
    decreases accts.len(),
{
    if accts.len() == 0 {
        cv
    } else {
        settle_accounts_spec(settle_account_spec(cv, accts[0]), accts.drop_first())
    }
}

/// The concatenated capture instructions of settling a list of accounts,
/// one after the other.
pub open spec fn plans_of(cv: ContractV, accts: Seq<Seq<char>>) -> Seq<(Seq<char>, nat)>
    decreases accts.len(),
{
    if accts.len() == 0 {
        Seq::<(Seq<char>, nat)>::empty()
    } else {
        plan_of(cv, accts[0]) + plans_of(settle_account_spec(cv, accts[0]), accts.drop_first())
    }
}

/// The values carried by a list of account identifiers.
pub open spec fn ids_view(s: Seq<String>) -> Seq<Seq<char>> {
    s.map_values(|x: String| x@)
}

/// A batch never selects more accounts than its limit.
pub proof fn lemma_select_len(l: Seq<EntryV>, lim: nat)
    ensures
        select_unsettled(l, lim).len() <= lim,
    decreases l.len(),
{
    if lim > 0 && l.len() > 0 {
        if has_unsettled(l[0].pledges) {
            lemma_select_len(l.drop_first(), (lim - 1) as nat);
        } else {
            lemma_select_len(l.drop_first(), lim);
        }
    }
}

/// Scanning one more entry extends the selection exactly when the entry is
/// unsettled and the limit is not yet reached.
pub proof fn lemma_select_snoc(l: Seq<EntryV>, e: EntryV, lim: nat)
    ensures
        select_unsettled(l.push(e), lim) == (if has_unsettled(e.pledges) && select_unsettled(
            l,
            lim,
        ).len() < lim {
            select_unsettled(l, lim).push(e.account)
        } else {
            select_unsettled(l, lim)
        }),
    decreases l.len(),
{
    lemma_select_len(l, lim);
    if lim == 0 {
        assert(select_unsettled(l.push(e), lim) =~= select_unsettled(l, lim));
    } else if l.len() == 0 {
        assert(l.push(e)[0] == e);
        assert(l.push(e).drop_first() =~= Seq::<EntryV>::empty());
        if has_unsettled(e.pledges) {
            assert(select_unsettled(l.push(e).drop_first(), (lim - 1) as nat) =~= Seq::<
                Seq<char>,
            >::empty());
            assert(select_unsettled(l.push(e), lim) =~= select_unsettled(l, lim).push(e.account));
        } else {
            assert(select_unsettled(l.push(e).drop_first(), lim) =~= Seq::<Seq<char>>::empty());
            assert(select_unsettled(l.push(e), lim) =~= select_unsettled(l, lim));
        }
    } else {
        assert(l.push(e)[0] == l[0]);
        assert(l.push(e).drop_first() =~= l.drop_first().push(e));
        if has_unsettled(l[0].pledges) {
            lemma_select_len(l.drop_first(), (lim - 1) as nat);
            lemma_select_snoc(l.drop_first(), e, (lim - 1) as nat);
            if has_unsettled(e.pledges) && select_unsettled(l, lim).len() < lim {
                assert(select_unsettled(l.drop_first(), (lim - 1) as nat).len() < lim - 1);
                assert(select_unsettled(l.push(e), lim) =~= select_unsettled(l, lim).push(
                    e.account,
                ));
            } else {
                assert(select_unsettled(l.push(e), lim) =~= select_unsettled(l, lim));
            }
        } else {
            lemma_select_snoc(l.drop_first(), e, lim);
            if has_unsettled(e.pledges) && select_unsettled(l, lim).len() < lim {
                assert(select_unsettled(l.push(e), lim) =~= select_unsettled(l, lim).push(
                    e.account,
                ));
            } else {
                assert(select_unsettled(l.push(e), lim) =~= select_unsettled(l, lim));
            }
        }
    }
}

/// With a positive limit, a batch selects nothing exactly when no entry of
/// the ledger holds an unsettled pledge: repeated batches drain the whole
/// backlog.
pub proof fn lemma_select_empty(l: Seq<EntryV>, lim: nat)
    requires
        lim > 0,
    ensures
        select_unsettled(l, lim).len() == 0 <==> !ledger_has_unsettled(l),
    decreases l.len(),
{
    if l.len() > 0 {
        let ld = l.drop_first();
        assert forall|j: int| 0 <= j < ld.len() implies #[trigger] ld[j] == l[j + 1] by {}
        if has_unsettled(l[0].pledges) {
            assert(ledger_has_unsettled(l));
        } else {
            lemma_select_empty(ld, lim);
            if ledger_has_unsettled(l) {
                let i = choose|i: int| 0 <= i < l.len() && has_unsettled(l[i].pledges);
                assert(has_unsettled(ld[i - 1].pledges));
            }
            if ledger_has_unsettled(ld) {
                let j = choose|j: int| 0 <= j < ld.len() && has_unsettled(ld[j].pledges);
                assert(has_unsettled(l[j + 1].pledges));
            }
        }
    }
}

/// Every selected account does hold a ledger entry with an unsettled
/// pledge; in particular the first selected one does.
pub proof fn lemma_select_first(l: Seq<EntryV>, lim: nat)
    requires
        unique_accounts(l),
        select_unsettled(l, lim).len() > 0,
    ensures
        has_entry(l, select_unsettled(l, lim)[0]),
        has_unsettled(pledges_of(l, select_unsettled(l, lim)[0])),
    decreases l.len(),
{
    let sel = select_unsettled(l, lim);
    let ld = l.drop_first();
    assert forall|j: int| 0 <= j < ld.len() implies #[trigger] ld[j] == l[j + 1] by {}
    if has_unsettled(l[0].pledges) && lim > 0 {
        assert(sel[0] == l[0].account);
        assert(find_entry(l, l[0].account) == 0);
    } else {
        lemma_select_first(ld, lim);
        let x = select_unsettled(ld, lim)[0];
        assert(sel[0] == x);
        lemma_lfind_props(ld, x);
        let fd = find_entry(ld, x);
        assert(ld[fd].account == x);
        assert(l[fd + 1].account == x);
        assert(l[0].account != l[fd + 1].account);
        assert(find_entry(l, x) == fd + 1);
        assert(pledges_of(l, x) == ld[fd].pledges);
        assert(pledges_of(ld, x) == ld[fd].pledges);
    }
}

/// Settling one more account continues the fold: the batch state after
/// `s` then `a` is the per-account settlement of `a` applied to the batch
/// state after `s`, and the instructions concatenate in order.
pub proof fn lemma_fold_snoc(cv: ContractV, s: Seq<Seq<char>>, a: Seq<char>)
    ensures
        settle_accounts_spec(cv, s.push(a)) == settle_account_spec(
            settle_accounts_spec(cv, s),
            a,
        ),
        plans_of(cv, s.push(a)) == plans_of(cv, s) + plan_of(settle_accounts_spec(cv, s), a),
    decreases s.len(),
{
    if s.len() == 0 {
        assert(s.push(a)[0] == a);
        assert(s.push(a).drop_first() =~= Seq::<Seq<char>>::empty());
        assert(settle_accounts_spec(settle_account_spec(cv, a), s.push(a).drop_first())
            == settle_account_spec(cv, a));
        assert(settle_accounts_spec(cv, s) == cv);
        assert(plans_of(settle_account_spec(cv, a), s.push(a).drop_first()) =~= Seq::<
            (Seq<char>, nat),
        >::empty());
        assert(plans_of(cv, s.push(a)) =~= plans_of(cv, s) + plan_of(cv, a));
    } else {
        assert(s.push(a)[0] == s[0]);
        assert(s.push(a).drop_first() =~= s.drop_first().push(a));
        let cv2 = settle_account_spec(cv, s[0]);
        lemma_fold_snoc(cv2, s.drop_first(), a);
        assert(plans_of(cv, s.push(a)) =~= plans_of(cv, s) + plan_of(
            settle_accounts_spec(cv, s),
            a,
        ));
    }
}

impl Contract {
    /// A fresh contract: fixed owner and marketplace, nothing minted.
    pub fn new(owner_id: String, marketplace_id: String) -> (c: Contract)
        ensures
            wf(c@),
            c@.owner == owner_id@,
            c@.marketplace == marketplace_id@,
            c@.balances.len() == 0,
            c@.total == 0,
            c@.ledger.len() == 0,
            !c@.window_open,
            c@.minted == 0,
            c@.burned == 0,
    {
        let c = Contract {
            owner_id,
            marketplace_id,
            token: BalanceStore::new(),
            intents: Vec::new(),
            window_open: false,
            minted: Ghost(0),
            burned: Ghost(0),
        };
        proof {
            assert(c@.ledger =~= Seq::<EntryV>::empty());
        }
        c
    }

    /// The contract owner's identity.
    pub fn owner_id(&self) -> (r: String)
        ensures
            r@ == self@.owner,
    {
        self.owner_id.clone()
    }

    /// The marketplace account: the only allowed transfer destination.
    pub fn marketplace_id(&self) -> (r: String)
        ensures
            r@ == self@.marketplace,
    {
        self.marketplace_id.clone()
    }

    /// Whether the burn window is open.
    pub fn burn_window_open(&self) -> (r: bool)
        ensures
            r == self@.window_open,
    {
        self.window_open
    }

    /// Opens the burn window: an advisory signal to the external capture
    /// pipeline that a settlement epoch begins. Owner only; nothing else
    /// changes.
    pub fn start_burn(&mut self, caller: &String) -> (r: Result<(), Error>)
        requires
            wf(old(self)@),
        ensures
            wf(final(self)@),
            caller@ != old(self)@.owner ==> r == Err::<(), Error>(Error::Unauthorized)
                && final(self)@ == old(self)@,
            caller@ == old(self)@.owner ==> r == Ok::<(), Error>(()) && final(self)@ == (ContractV {
                window_open: true,
                ..old(self)@
            }),
    {
        if !caller.eq(&self.owner_id) {
            return Err(Error::Unauthorized);
        }
        self.window_open = true;
        Ok(())
    }

    /// Closes the burn window: the settlement epoch is over. Owner only;
    /// nothing else changes.
    pub fn complete_burn(&mut self, caller: &String) -> (r: Result<(), Error>)
        requires
            wf(old(self)@),
        ensures
            wf(final(self)@),
            caller@ != old(self)@.owner ==> r == Err::<(), Error>(Error::Unauthorized)
                && final(self)@ == old(self)@,
            caller@ == old(self)@.owner ==> r == Ok::<(), Error>(()) && final(self)@ == (ContractV {
                window_open: false,
                ..old(self)@
            }),
    {
        if !caller.eq(&self.owner_id) {
            return Err(Error::Unauthorized);
        }
        self.window_open = false;
        Ok(())
    }

    /// Mints `intent_balance` tokens to `account_id` against the external
    /// hold named `intent_id`: appends a fresh unsettled pledge to the
    /// account's ledger entry (creating and registering the account on its
    /// first mint) and deposits the amount. Owner only; a pledge identifier
    /// may be used at most once per account.
    pub fn mint(
        &mut self,
        caller: &String,
        account_id: &String,
        intent_id: String,
        intent_balance: u128,
    ) -> (r: Result<(), Error>)
        requires
            wf(old(self)@),
            caller@ == old(self)@.owner && !is_duplicate(old(self)@, account_id@, intent_id@)
                ==> old(self)@.total + intent_balance <= u128::MAX,
        ensures
            wf(final(self)@),
            caller@ != old(self)@.owner ==> r == Err::<(), Error>(Error::Unauthorized)
                && final(self)@ == old(self)@,
            caller@ == old(self)@.owner && is_duplicate(old(self)@, account_id@, intent_id@)
                ==> r == Err::<(), Error>(Error::DuplicateIntent) && final(self)@ == old(self)@,
            caller@ == old(self)@.owner && !is_duplicate(old(self)@, account_id@, intent_id@)
                ==> r == Ok::<(), Error>(()) && ({
                let cv = old(self)@;
                let a = account_id@;
                let p = minted_pledge(a, intent_id@, intent_balance as nat);
                &&& final(self)@.owner == cv.owner
                &&& final(self)@.marketplace == cv.marketplace
                &&& final(self)@.window_open == cv.window_open
                &&& final(self)@.total == cv.total + intent_balance
                &&& final(self)@.minted == cv.minted + intent_balance
                &&& final(self)@.burned == cv.burned
                &&& final(self)@.ledger == (if has_entry(cv.ledger, a) {
                    cv.ledger.update(
                        find_entry(cv.ledger, a),
                        (EntryV { account: a, pledges: pledges_of(cv.ledger, a).push(p) }),
                    )
                } else {
                    cv.ledger.push((EntryV { account: a, pledges: seq![p] }))
                })
                &&& final(self)@.balances == (if registered(cv.balances, a) {
                    cv.balances.update(
                        find_acct(cv.balances, a),
                        (AccountV {
                            id: a,
                            balance: (bal_of(cv.balances, a) + intent_balance) as nat,
                        }),
                    )
                } else {
                    cv.balances.push((AccountV { id: a, balance: intent_balance as nat }))
                })
                &&& has_entry(final(self)@.ledger, a)
                &&& pledges_of(final(self)@.ledger, a) == pledges_of(cv.ledger, a).push(p)
                &&& registered(final(self)@.balances, a)
                &&& bal_of(final(self)@.balances, a) == bal_of(cv.balances, a) + intent_balance
                &&& forall|x: Seq<char>|
                    x != a ==> pledges_of(final(self)@.ledger, x) == pledges_of(cv.ledger, x)
                        && has_entry(final(self)@.ledger, x) == has_entry(cv.ledger, x)
                &&& forall|x: Seq<char>|
                    x != a ==> bal_of(final(self)@.balances, x) == bal_of(cv.balances, x)
                        && registered(final(self)@.balances, x) == registered(cv.balances, x)
            }),
    {
        if !caller.eq(&self.owner_id) {
            return Err(Error::Unauthorized);
        }
        let ghost cv = self@;
        let ghost a = account_id@;
        let ghost p = minted_pledge(a, intent_id@, intent_balance as nat);
        match find_entry_index(&self.intents, account_id) {
            Some(i) => {
                proof {
                    lemma_lfind_props(cv.ledger, a);
                    assert(pledges_of(cv.ledger, a) == pledges_view(
                        self.intents@[i as int].intents@,
                    ));
                }
                let ghost olds = pledges_of(cv.ledger, a);
                if intents_contain_id(&self.intents[i].intents, &intent_id) {
                    return Err(Error::DuplicateIntent);
                }
                self.intents[i].intents.push(
                    StripeIntent {
                        account_id: account_id.clone(),
                        intent_id,
                        intent_balance,
                        status: SettleStatus::Unsettled,
                    },
                );
                proof {
                    assert(!is_duplicate(cv, a, p.id));
                    assert(pledges_view(self.intents@[i as int].intents@) =~= olds.push(p));
                    assert(self@.ledger =~~= cv.ledger.update(
                        i as int,
                        EntryV { account: a, pledges: olds.push(p) },
                    ));
                }
            },
            None => {
                proof {
                    lemma_lfind_props(cv.ledger, a);
                    assert(pledges_of(cv.ledger, a).len() == 0);
                }
                let mut first: Vec<StripeIntent> = Vec::new();
                first.push(
                    StripeIntent {
                        account_id: account_id.clone(),
                        intent_id,
                        intent_balance,
                        status: SettleStatus::Unsettled,
                    },
                );
                self.intents.push(IntentEntry { account_id: account_id.clone(), intents: first });
                proof {
                    assert(pledges_view(first@) =~= seq![p]);
                    assert(self@.ledger =~~= cv.ledger.push(EntryV { account: a, pledges: seq![p] }));
                }
            },
        }
        let ghost midl = self@.ledger;
        self.token.register(account_id);
        proof {
            if !registered(cv.balances, a) {
                lemma_bal_of_push(cv.balances, AccountV { id: a, balance: 0 }, a);
            }
        }
        self.token.deposit(account_id, intent_balance);
        proof {
            if !registered(cv.balances, a) {
                crate::balance::lemma_find_push(cv.balances, AccountV { id: a, balance: 0 }, a);
                assert(self@.balances =~= cv.balances.push(
                    AccountV { id: a, balance: intent_balance as nat },
                ));
            }
        }
        self.minted = Ghost(self.minted@ + intent_balance as nat);
        proof {
            self.lemma_mint_wf(cv, a, p, intent_balance, midl);
            // pointwise readings of the two exact updates
            lemma_lfind_props(cv.ledger, a);
            if has_entry(cv.ledger, a) {
                let fi = find_entry(cv.ledger, a);
                let e2 = EntryV { account: a, pledges: pledges_of(cv.ledger, a).push(p) };
                assert forall|x: Seq<char>|
                    x != a implies pledges_of(self@.ledger, x) == pledges_of(cv.ledger, x)
                    && has_entry(self@.ledger, x) == has_entry(cv.ledger, x) by {
                    lemma_pledges_of_update(cv.ledger, fi, e2, x);
                }
                lemma_pledges_of_update(cv.ledger, fi, e2, a);
            } else {
                let e2 = EntryV { account: a, pledges: seq![p] };
                assert forall|x: Seq<char>|
                    x != a implies pledges_of(self@.ledger, x) == pledges_of(cv.ledger, x)
                    && has_entry(self@.ledger, x) == has_entry(cv.ledger, x) by {
                    lemma_pledges_of_push(cv.ledger, e2, x);
                }
                lemma_pledges_of_push(cv.ledger, e2, a);
                assert(pledges_of(self@.ledger, a) =~= pledges_of(cv.ledger, a).push(p));
            }
            lemma_find_props(cv.balances, a);
            if registered(cv.balances, a) {
                let bi = find_acct(cv.balances, a);
                let w = AccountV {
                    id: a,
                    balance: (bal_of(cv.balances, a) + intent_balance) as nat,
                };
                assert forall|x: Seq<char>|
                    x != a implies bal_of(self@.balances, x) == bal_of(cv.balances, x)
                    && registered(self@.balances, x) == registered(cv.balances, x) by {
                    lemma_bal_of_update(cv.balances, bi, w, x);
                }
                lemma_bal_of_update(cv.balances, bi, w, a);
            } else {
                let w = AccountV { id: a, balance: intent_balance as nat };
                assert forall|x: Seq<char>|
                    x != a implies bal_of(self@.balances, x) == bal_of(cv.balances, x)
                    && registered(self@.balances, x) == registered(cv.balances, x) by {
                    lemma_bal_of_push(cv.balances, w, x);
                }
                lemma_bal_of_push(cv.balances, w, a);
            }
        }
        Ok(())
    }

    /// Restores the invariant and the exact-update shape after a mint.
    proof fn lemma_mint_wf(
        &self,
        cv: ContractV,
        a: Seq<char>,
        p: PledgeV,
        intent_balance: u128,
        midl: Seq<EntryV>,
    )
        requires
            wf(cv),
            cv.total + intent_balance <= u128::MAX,
            p == minted_pledge(a, p.id, intent_balance as nat),
            midl == (if has_entry(cv.ledger, a) {
                cv.ledger.update(
                    find_entry(cv.ledger, a),
                    (EntryV { account: a, pledges: pledges_of(cv.ledger, a).push(p) }),
                )
            } else {
                cv.ledger.push((EntryV { account: a, pledges: seq![p] }))
            }),
            self@.ledger == midl,
            self@.owner == cv.owner,
            self@.marketplace == cv.marketplace,
            self@.window_open == cv.window_open,
            self@.minted == cv.minted + intent_balance,
            self@.burned == cv.burned,
            self@.total == cv.total + intent_balance,
            self@.balances == (if registered(cv.balances, a) {
                cv.balances.update(
                    find_acct(cv.balances, a),
                    (AccountV {
                        id: a,
                        balance: (bal_of(cv.balances, a) + intent_balance) as nat,
                    }),
                )
            } else {
                cv.balances.push((AccountV { id: a, balance: intent_balance as nat }))
            }),
            store_wf(BalancesV { accounts: self@.balances, total: self@.total }),
        ensures
            wf(self@),
    {
        let l2 = self@.ledger;
        let b2 = self@.balances;
        // ledger well-formedness
        if has_entry(cv.ledger, a) {
            let fi = find_entry(cv.ledger, a);
            lemma_lfind_props(cv.ledger, a);
            let e2 = EntryV { account: a, pledges: pledges_of(cv.ledger, a).push(p) };
            assert forall|i: int, j: int|
                0 <= i < l2.len() && 0 <= j < (#[trigger] l2[i]).pledges.len() implies (
            #[trigger] l2[i].pledges[j]).account == l2[i].account && pledge_wf(l2[i].pledges[j]) by {
                if i == fi {
                    if j < pledges_of(cv.ledger, a).len() {
                        assert(cv.ledger[i].pledges[j].account == cv.ledger[i].account);
                    }
                } else {
                    assert(l2[i] == cv.ledger[i]);
                }
            }
            lemma_pledges_of_update(cv.ledger, fi, e2, a);
        } else {
            lemma_lfind_props(cv.ledger, a);
            let e2 = EntryV { account: a, pledges: seq![p] };
            assert forall|i: int, j: int|
                0 <= i < l2.len() && 0 <= j < (#[trigger] l2[i]).pledges.len() implies (
            #[trigger] l2[i].pledges[j]).account == l2[i].account && pledge_wf(l2[i].pledges[j]) by {
                if i < cv.ledger.len() {
                    assert(l2[i] == cv.ledger[i]);
                } else {
                    assert(l2[i] == e2);
                }
            }
            lemma_pledges_of_push(cv.ledger, e2, a);
        }
        // every ledger account is registered
        assert forall|i: int|
            0 <= i < l2.len() implies registered(b2, (#[trigger] l2[i]).account) by {
            let x = l2[i].account;
            if registered(cv.balances, a) {
                let bi = find_acct(cv.balances, a);
                lemma_find_props(cv.balances, a);
                lemma_bal_of_update(
                    cv.balances,
                    bi,
                    AccountV { id: a, balance: (bal_of(cv.balances, a) + intent_balance) as nat },
                    x,
                );
            } else {
                lemma_bal_of_push(
                    cv.balances,
                    AccountV { id: a, balance: intent_balance as nat },
                    x,
                );
            }
            if i < cv.ledger.len() && l2[i] == cv.ledger[i] {
                assert(registered(cv.balances, x));
            } else {
                assert(x == a);
            }
        }
    }

    /// Settles one account's pledges, without an owner check: the shared
    /// engine behind the public settlement entry points.
    fn settle_one(&mut self, account_id: &String) -> (r: Vec<(String, u128)>)
        requires
            wf(old(self)@),
        ensures
            wf(final(self)@),
            final(self)@ == settle_account_spec(old(self)@, account_id@),
            plan_view(r@) == plan_of(old(self)@, account_id@),
    {
        let ghost cv = self@;
        let ghost a = account_id@;
        match find_entry_index(&self.intents, account_id) {
            None => {
                let r: Vec<(String, u128)> = Vec::new();
                proof {
                    assert(plan_view(r@) =~= plan_of(cv, a));
                }
                r
            },
            Some(i) => {
                proof {
                    lemma_lfind_props(cv.ledger, a);
                    assert(registered(cv.balances, cv.ledger[i as int].account));
                    lemma_find_props(cv.balances, a);
                }
                let ghost bi = find_acct(cv.balances, a);
                let ghost ps = pledges_of(cv.ledger, a);
                let balance = self.token.balance_of(account_id);
                proof {
                    assert(ps == pledges_view(self.intents@[i as int].intents@));
                }
                let (plan, new_balance) = settle_intents(&mut self.intents[i].intents, balance);
                proof {
                    lemma_settle_basic(ps, balance as nat);
                    assert(self@.ledger =~~= cv.ledger.update(
                        i as int,
                        EntryV { account: a, pledges: settle_pledges(ps, balance as nat) },
                    ));
                    lemma_bal_le_sum(cv.balances, bi);
                }
                let burnt = balance - new_balance;
                self.token.withdraw(account_id, burnt);
                self.burned = Ghost(self.burned@ + burnt as nat);
                proof {
                    assert(self@ =~~= settle_account_spec(cv, a));
                    lemma_settle_account_wf(cv, a);
                }
                plan
            },
        }
    }

    /// Settles every pledge of `account_id` in mint order against its
    /// current balance, burns the backed portion, and returns one
    /// `(pledge id, capture amount)` instruction per pledge settled by the
    /// call, in mint order. Owner only. An account with nothing unsettled
    /// is left untouched and yields no instruction.
    pub fn capture_and_burn_for(&mut self, caller: &String, account_id: &String) -> (r: Result<
        Vec<(String, u128)>,
        Error,
    >)
        requires
            wf(old(self)@),
        ensures
            wf(final(self)@),
            caller@ != old(self)@.owner ==> r == Err::<Vec<(String, u128)>, Error>(
                Error::Unauthorized,
            ) && final(self)@ == old(self)@,
            caller@ == old(self)@.owner ==> final(self)@ == settle_account_spec(
                old(self)@,
                account_id@,
            ) && (r matches Ok(plan) && plan_view(plan@) == plan_of(old(self)@, account_id@)),
            caller@ == old(self)@.owner && !has_unsettled(pledges_of(old(self)@.ledger, account_id@))
                ==> final(self)@ == old(self)@ && (r matches Ok(plan) && plan@.len() == 0),
    {
        if !caller.eq(&self.owner_id) {
            return Err(Error::Unauthorized);
        }
        let ghost cv = self@;
        let plan = self.settle_one(account_id);
        proof {
            if !has_unsettled(pledges_of(cv.ledger, account_id@)) {
                lemma_settled_account_noop(cv, account_id@);
                assert(plan_view(plan@).len() == plan@.len());
            }
        }
        Ok(plan)
    }

    /// Moves `amount` tokens from the caller to `receiver_id`. Transfers
    /// are allow-listed: only the marketplace account may receive. The
    /// receiver is registered on first contact; the supply, the ledger and
    /// every other balance are untouched.
    pub fn ft_transfer(&mut self, caller: &String, receiver_id: &String, amount: u128) -> (r:
        Result<(), Error>)
        requires
            wf(old(self)@),
        ensures
            wf(final(self)@),
            receiver_id@ != old(self)@.marketplace ==> r == Err::<(), Error>(
                Error::DestinationNotAllowed,
            ) && final(self)@ == old(self)@,
            receiver_id@ == old(self)@.marketplace && amount as nat > bal_of(
                old(self)@.balances,
                caller@,
            ) ==> r == Err::<(), Error>(Error::InsufficientBalance) && final(self)@ == old(self)@,
            receiver_id@ == old(self)@.marketplace && amount as nat <= bal_of(
                old(self)@.balances,
                caller@,
            ) ==> r == Ok::<(), Error>(()) && ({
                let cv = old(self)@;
                &&& final(self)@.owner == cv.owner
                &&& final(self)@.marketplace == cv.marketplace
                &&& final(self)@.window_open == cv.window_open
                &&& final(self)@.ledger == cv.ledger
                &&& final(self)@.total == cv.total
                &&& final(self)@.minted == cv.minted
                &&& final(self)@.burned == cv.burned
                &&& forall|x: Seq<char>|
                    registered(final(self)@.balances, x) == (registered(cv.balances, x) || x
                        == receiver_id@)
                &&& caller@ != receiver_id@ ==> bal_of(final(self)@.balances, caller@) == bal_of(
                    cv.balances,
                    caller@,
                ) - amount
                &&& caller@ != receiver_id@ ==> bal_of(final(self)@.balances, receiver_id@)
                    == bal_of(cv.balances, receiver_id@) + amount
                &&& caller@ == receiver_id@ ==> forall|x: Seq<char>|
                    bal_of(final(self)@.balances, x) == bal_of(cv.balances, x)
                &&& forall|x: Seq<char>|
                    x != caller@ && x != receiver_id@ ==> bal_of(final(self)@.balances, x)
                        == bal_of(cv.balances, x)
            }),
    {
        if !receiver_id.eq(&self.marketplace_id) {
            return Err(Error::DestinationNotAllowed);
        }
        let bal = self.token.balance_of(caller);
        if amount > bal {
            return Err(Error::InsufficientBalance);
        }
        let ghost cv = self@;
        let ghost recv = AccountV { id: receiver_id@, balance: 0 };
        self.token.register(receiver_id);
        let ghost mid = self@.balances;
        proof {
            if !registered(cv.balances, receiver_id@) {
                lemma_bal_of_push(cv.balances, recv, caller@);
                lemma_bal_of_push(cv.balances, recv, receiver_id@);
            }
        }
        if amount > 0 {
            self.token.transfer(caller, receiver_id, amount);
        }
        proof {
            assert forall|x: Seq<char>|
                registered(self@.balances, x) == (registered(cv.balances, x) || x
                    == receiver_id@) by {
                if !registered(cv.balances, receiver_id@) {
                    lemma_bal_of_push(cv.balances, recv, x);
                }
            }
            assert forall|x: Seq<char>|
                x != caller@ && x != receiver_id@ implies bal_of(self@.balances, x) == bal_of(
                cv.balances,
                x,
            ) by {
                if !registered(cv.balances, receiver_id@) {
                    lemma_bal_of_push(cv.balances, recv, x);
                }
            }
            if caller@ == receiver_id@ {
                assert forall|x: Seq<char>|
                    bal_of(self@.balances, x) == bal_of(cv.balances, x) by {
                    if !registered(cv.balances, receiver_id@) {
                        lemma_bal_of_push(cv.balances, recv, x);
                    }
                }
            }
            assert forall|i: int|
                0 <= i < self@.ledger.len() implies registered(
                self@.balances,
                (#[trigger] self@.ledger[i]).account,
            ) by {
                let x = self@.ledger[i].account;
                assert(registered(cv.balances, x));
            }
        }
        Ok(())
    }

    /// One batch settlement pass: walks the ledger in order, selects up to
    /// `limit` accounts (ten when unspecified) that still hold an unsettled
    /// pledge, settles each selected account in full, and returns their
    /// concatenated capture instructions. Owner only. Meant to be called
    /// repeatedly until it returns an empty plan: each call shrinks the
    /// unsettled backlog by up to `limit` accounts, and with a positive
    /// limit an empty result means the backlog is drained.
    pub fn capture_and_burn_all(&mut self, caller: &String, limit: Option<u64>) -> (r: Result<
        Vec<(String, u128)>,
        Error,
    >)
        requires
            wf(old(self)@),
        ensures
            wf(final(self)@),
            caller@ != old(self)@.owner ==> r == Err::<Vec<(String, u128)>, Error>(
                Error::Unauthorized,
            ) && final(self)@ == old(self)@,
            caller@ == old(self)@.owner ==> ({
                let lim = (match limit {
                    Some(l) => l as nat,
                    None => 10
                });
                &&& final(self)@ == settle_accounts_spec(
                    old(self)@,
                    select_unsettled(old(self)@.ledger, lim),
                )
                &&& (r matches Ok(plan) && plan_view(plan@) == plans_of(
                    old(self)@,
                    select_unsettled(old(self)@.ledger, lim),
                ))
            }),
            caller@ == old(self)@.owner && (match limit {
                Some(l) => l >= 1,
                None => true
            }) ==> (r matches Ok(plan) && (plan@.len() == 0 <==> !ledger_has_unsettled(
                old(self)@.ledger,
            ))),
    {
        if !caller.eq(&self.owner_id) {
            return Err(Error::Unauthorized);
        }
        let lim: u64 = match limit {
            Some(l) => l,
            None => 10,
        };
        let ghost cv = self@;
        let ghost limn = lim as nat;
        let mut ids: Vec<String> = Vec::new();
        let mut i: usize = 0;
        while i < self.intents.len()
            invariant
                self@ == cv,
                cv == old(self)@,
                wf(cv),
                limn == lim as nat,
                i <= self.intents@.len(),
                cv.ledger.len() == self.intents@.len(),
                ids_view(ids@) == select_unsettled(cv.ledger.take(i as int), limn),
                ids@.len() == ids_view(ids@).len(),
            decreases self.intents@.len() - i,
        {
            let ghost prefix = cv.ledger.take(i as int);
            proof {
                assert(cv.ledger.take(i + 1) =~= prefix.push(cv.ledger[i as int]));
                lemma_select_len(prefix, limn);
                lemma_select_snoc(prefix, cv.ledger[i as int], limn);
                assert(cv.ledger[i as int] == self.intents@[i as int]@);
            }
            if (ids.len() as u64) < lim {
                if intents_have_unsettled(&self.intents[i].intents) {
                    ids.push(self.intents[i].account_id.clone());
                    proof {
                        assert(ids_view(ids@) =~= select_unsettled(
                            cv.ledger.take(i + 1),
                            limn,
                        ));
                    }
                } else {
                    proof {
                        assert(ids_view(ids@) =~= select_unsettled(
                            cv.ledger.take(i + 1),
                            limn,
                        ));
                    }
                }
            } else {
                proof {
                    assert(select_unsettled(prefix, limn).len() >= limn);
                    assert(ids_view(ids@) =~= select_unsettled(cv.ledger.take(i + 1), limn));
                }
            }
            i = i + 1;
        }
        proof {
            assert(cv.ledger.take(cv.ledger.len() as int) =~= cv.ledger);
        }
        let ghost idv = ids_view(ids@);
        let mut out: Vec<(String, u128)> = Vec::new();
        let mut k: usize = 0;
        while k < ids.len()
            invariant
                cv == old(self)@,
                wf(cv),
                wf(self@),
                k <= ids@.len(),
                idv == ids_view(ids@),
                idv == select_unsettled(cv.ledger, limn),
                self@ == settle_accounts_spec(cv, idv.take(k as int)),
                plan_view(out@) == plans_of(cv, idv.take(k as int)),
            decreases ids@.len() - k,
        {
            let ghost sofar = idv.take(k as int);
            let ghost outbefore = out@;
            proof {
                assert(idv.take(k + 1) =~= sofar.push(idv[k as int]));
                lemma_fold_snoc(cv, sofar, idv[k as int]);
                assert(ids@[k as int]@ == idv[k as int]);
            }
            let mut part = self.settle_one(&ids[k]);
            let ghost partv = part@;
            out.append(&mut part);
            proof {
                assert(plan_view(out@) =~= plan_view(outbefore) + plan_view(partv));
                assert(plan_view(out@) =~= plans_of(cv, idv.take(k + 1)));
            }
            k = k + 1;
        }
        proof {
            assert(idv.take(ids@.len() as int) =~= idv);
            if lim >= 1 {
                lemma_select_empty(cv.ledger, limn);
                if idv.len() > 0 {
                    lemma_select_first(cv.ledger, limn);
                    let a0 = idv[0];
                    let li = find_entry(cv.ledger, a0);
                    let bi = find_acct(cv.balances, a0);
                    lemma_lfind_props(cv.ledger, a0);
                    assert(registered(cv.balances, cv.ledger[li].account));
                    lemma_find_props(cv.balances, a0);
                    lemma_plan_len(cv.ledger[li].pledges, cv.balances[bi].balance);
                    assert(plan_of(cv, a0).len() > 0);
                    assert(plans_of(cv, idv) == plan_of(cv, a0) + plans_of(
                        settle_account_spec(cv, a0),
                        idv.drop_first(),
                    ));
                    assert(plan_view(out@).len() > 0);
                }
                assert(plan_view(out@).len() == out@.len());
            }
        }
        Ok(out)
    }

    /// The circulating token supply.
    pub fn ft_total_supply(&self) -> (r: u128)
        ensures
            r as nat == self@.total,
    {
        self.token.total_supply()
    }

    /// The balance held by `account_id` (zero when unregistered).
    pub fn ft_balance_of(&self, account_id: &String) -> (r: u128)
        ensures
            r as nat == bal_of(self@.balances, account_id@),
    {
        self.token.balance_of(account_id)
    }

    /// How many pledges `account_id` has minted so far.
    pub fn intent_count(&self, account_id: &String) -> (r: usize)
        ensures
            r == pledges_of(self@.ledger, account_id@).len(),
    {
        match find_entry_index(&self.intents, account_id) {
            Some(i) => self.intents[i].intents.len(),
            None => 0,
        }
    }

    /// A copy of the `j`-th pledge of `account_id`, oldest first; `None`
    /// past the end.
    pub fn intent_at(&self, account_id: &String, j: usize) -> (r: Option<StripeIntent>)
        ensures
            match r {
                Some(p) => j < pledges_of(self@.ledger, account_id@).len() && p@ == pledges_of(
                    self@.ledger,
                    account_id@,
                )[j as int],
                None => j >= pledges_of(self@.ledger, account_id@).len(),
            },
    {
        match find_entry_index(&self.intents, account_id) {
            Some(i) => {
                if j < self.intents[i].intents.len() {
                    let p = &self.intents[i].intents[j];
                    Some(
                        StripeIntent {
                            account_id: p.account_id.clone(),
                            intent_id: p.intent_id.clone(),
                            intent_balance: p.intent_balance,
                            status: p.status,
                        },
                    )
                } else {
                    None
                }
            },
            None => None,
        }
    }
}

} // verus!
