//! The library's laws, stated over the contract's mathematical state.
//!
//! Beyond the per-function contracts, these proof functions state what
//! holds across calls: supply conservation, the settled partition, the
//! terminality of settlement, and that any paginated settlement schedule
//! that drains the backlog lands on one and the same final state.

use vstd::prelude::*;

use crate::balance::{
    bal_of, find_acct, lemma_bal_of_update, lemma_find_props, sum_balances, AccountV,
};
use crate::contract::{
    lemma_settle_account_wf, settle_account_spec, settle_accounts_spec, wf, ContractV,
};
use crate::ledger::{
    find_entry, has_entry, ledger_has_unsettled, lemma_lfind_props, lemma_lfind_update,
    lemma_pledges_of_update, pledges_of, EntryV,
};
use crate::pledge::{has_unsettled, is_unsettled, pledge_wf, StatusV};
use crate::settle::{balance_after, lemma_settle_basic, lemma_settle_noop, settle_pledges};

verus! {

/// Conservation: at every well-formed state the circulating supply is
/// exactly what was ever minted minus what was ever burned, and it is held
/// in full by the accounts.
pub proof fn lemma_conservation(cv: ContractV)
    requires
        wf(cv),
    ensures
        cv.total == cv.minted - cv.burned,
        sum_balances(cv.balances) == cv.total,
{
}

/// Partition: every settled pledge splits its amount exactly into the
/// burned part and the captured part (both are `nat`, hence non-negative).
pub proof fn lemma_partition(cv: ContractV, a: Seq<char>, j: int)
    requires
        wf(cv),
        0 <= j < pledges_of(cv.ledger, a).len(),
    ensures
        pledges_of(cv.ledger, a)[j].status matches StatusV::Settled { burn, capture } ==> burn
            + capture == pledges_of(cv.ledger, a)[j].amount,
{
    let li = find_entry(cv.ledger, a);
    lemma_lfind_props(cv.ledger, a);
    if li != -1 {
        assert(pledge_wf(cv.ledger[li].pledges[j]));
    }
}

/// Terminality: a pledge that is already settled is not touched by any
/// later settlement of any account; its record is permanent.
pub proof fn lemma_settlement_terminal(cv: ContractV, a: Seq<char>, x: Seq<char>, j: int)
    requires
        wf(cv),
        0 <= j < pledges_of(cv.ledger, x).len(),
        !is_unsettled(pledges_of(cv.ledger, x)[j]),
    ensures
        pledges_of(settle_account_spec(cv, a).ledger, x).len() == pledges_of(cv.ledger, x).len(),
        pledges_of(settle_account_spec(cv, a).ledger, x)[j] == pledges_of(cv.ledger, x)[j],
{
    let li = find_entry(cv.ledger, a);
    let bi = find_acct(cv.balances, a);
    if li != -1 && bi != -1 {
        lemma_lfind_props(cv.ledger, a);
        lemma_lfind_props(cv.ledger, x);
        let ps = cv.ledger[li].pledges;
        let b = cv.balances[bi].balance;
        lemma_settle_basic(ps, b);
        let e2 = EntryV { account: a, pledges: settle_pledges(ps, b) };
        lemma_pledges_of_update(cv.ledger, li, e2, x);
        if x == a {
            assert(pledges_of(cv.ledger, x) == ps);
        }
    }
}

/// One entry after every account settled against the current balances.
pub open spec fn settle_entry_all(cv: ContractV, e: EntryV) -> EntryV {
    EntryV {
        account: e.account,
        pledges: settle_pledges(e.pledges, bal_of(cv.balances, e.account)),
    }
}

/// The drained state: every entry settled against its account's balance,
/// every minting account's balance reduced to what its pledges left over,
/// the supply shrunk accordingly. This is the normal form every complete
/// settlement schedule reaches.
pub open spec fn settle_all(cv: ContractV) -> ContractV {
    let l2 = Seq::new(cv.ledger.len(), |i: int| settle_entry_all(cv, cv.ledger[i]));
    let b2 = Seq::new(
        cv.balances.len(),
        |i: int|
            AccountV {
                id: cv.balances[i].id,
                balance: if has_entry(cv.ledger, cv.balances[i].id) {
                    balance_after(
                        pledges_of(cv.ledger, cv.balances[i].id),
                        cv.balances[i].balance,
                    )
                } else {
                    cv.balances[i].balance
                },
            },
    );
    ContractV {
        ledger: l2,
        balances: b2,
        total: sum_balances(b2),
        burned: (cv.minted - sum_balances(b2)) as nat,
        ..cv
    }
}

/// A state with nothing left unsettled is its own drained state.
pub proof fn lemma_settle_all_fixpoint(cv: ContractV)
    requires
        wf(cv),
        !ledger_has_unsettled(cv.ledger),
    ensures
        settle_all(cv) == cv,
{
    assert forall|i: int|
        0 <= i < cv.ledger.len() implies !has_unsettled((#[trigger] cv.ledger[i]).pledges) by {
        if has_unsettled(cv.ledger[i].pledges) {
            assert(ledger_has_unsettled(cv.ledger));
        }
    }
    assert forall|i: int|
        0 <= i < cv.ledger.len() implies settle_entry_all(cv, cv.ledger[i]) == cv.ledger[i] by {
        lemma_settle_noop(cv.ledger[i].pledges, bal_of(cv.balances, cv.ledger[i].account));
        assert(settle_entry_all(cv, cv.ledger[i]) =~~= cv.ledger[i]);
    }
    assert(settle_all(cv).ledger =~= cv.ledger);
    assert forall|i: int|
        0 <= i < cv.balances.len() implies settle_all(cv).balances[i] == cv.balances[i] by {
        let idi = cv.balances[i].id;
        if has_entry(cv.ledger, idi) {
            lemma_lfind_props(cv.ledger, idi);
            let f = find_entry(cv.ledger, idi);
            assert(!has_unsettled(cv.ledger[f].pledges));
            lemma_settle_noop(pledges_of(cv.ledger, idi), cv.balances[i].balance);
        }
        assert(settle_all(cv).balances[i] =~~= cv.balances[i]);
    }
    assert(settle_all(cv).balances =~= cv.balances);
    assert(settle_all(cv) =~~= cv);
}

/// Settling any one account does not change the drained state a schedule
/// is heading for: per-account settlements are absorbed by the normal
/// form.
pub proof fn lemma_settle_all_absorb(cv: ContractV, a: Seq<char>)
    requires
        wf(cv),
    ensures
        settle_all(settle_account_spec(cv, a)) == settle_all(cv),
{
    let li = find_entry(cv.ledger, a);
    let bi = find_acct(cv.balances, a);
    if li != -1 && bi != -1 {
        let cv2 = settle_account_spec(cv, a);
        let ps = cv.ledger[li].pledges;
        let b = cv.balances[bi].balance;
        let nb = balance_after(ps, b);
        let w = AccountV { id: a, balance: nb };
        let e2 = EntryV { account: a, pledges: settle_pledges(ps, b) };
        lemma_lfind_props(cv.ledger, a);
        lemma_find_props(cv.balances, a);
        lemma_settle_basic(ps, b);
        lemma_settle_account_wf(cv, a);
        if has_unsettled(e2.pledges) {
            let j = choose|j: int| 0 <= j < e2.pledges.len() && is_unsettled(e2.pledges[j]);
            assert(!is_unsettled(settle_pledges(ps, b)[j]));
        }
        lemma_bal_of_update(cv.balances, bi, w, a);
        // the settled entries agree pointwise
        assert forall|i: int|
            0 <= i < cv.ledger.len() implies settle_entry_all(cv2, cv2.ledger[i])
            == settle_entry_all(cv, cv.ledger[i]) by {
            lemma_bal_of_update(cv.balances, bi, w, cv.ledger[i].account);
            if i == li {
                assert(cv2.ledger[i] == e2);
                assert(bal_of(cv2.balances, a) == nb);
                lemma_settle_noop(e2.pledges, nb);
                assert(bal_of(cv.balances, a) == b);
                assert(settle_entry_all(cv2, cv2.ledger[i]) =~~= settle_entry_all(
                    cv,
                    cv.ledger[i],
                ));
            } else {
                assert(cv2.ledger[i] == cv.ledger[i]);
                assert(cv.ledger[i].account != a);
                assert(settle_entry_all(cv2, cv2.ledger[i]) =~~= settle_entry_all(
                    cv,
                    cv.ledger[i],
                ));
            }
        }
        assert(settle_all(cv2).ledger =~= settle_all(cv).ledger);
        // the drained balances agree pointwise
        assert forall|i: int|
            0 <= i < cv.balances.len() implies settle_all(cv2).balances[i] == settle_all(
            cv,
        ).balances[i] by {
            let idi = cv.balances[i].id;
            lemma_lfind_update(cv.ledger, li, e2, idi);
            lemma_pledges_of_update(cv.ledger, li, e2, idi);
            if i == bi {
                assert(idi == a);
                assert(cv2.balances[i] == w);
                assert(has_entry(cv.ledger, a));
                assert(pledges_of(cv2.ledger, a) == e2.pledges);
                lemma_settle_noop(e2.pledges, nb);
                assert(pledges_of(cv.ledger, a) == ps);
                assert(settle_all(cv2).balances[i] =~~= settle_all(cv).balances[i]);
            } else {
                assert(idi != a);
                assert(cv2.balances[i] == cv.balances[i]);
                if has_entry(cv.ledger, idi) {
                    assert(pledges_of(cv2.ledger, idi) == pledges_of(cv.ledger, idi));
                }
                assert(settle_all(cv2).balances[i] =~~= settle_all(cv).balances[i]);
            }
        }
        assert(settle_all(cv2).balances =~= settle_all(cv).balances);
        assert(settle_all(cv2) =~~= settle_all(cv));
    }
}

/// Any settlement schedule that ends with nothing unsettled ends in the
/// drained state, whatever its order and pagination.
pub proof fn lemma_run_to_settle_all(cv: ContractV, s: Seq<Seq<char>>)
    requires
        wf(cv),
        !ledger_has_unsettled(settle_accounts_spec(cv, s).ledger),
    ensures
        settle_accounts_spec(cv, s) == settle_all(cv),
    decreases s.len(),
{
    if s.len() == 0 {
        lemma_settle_all_fixpoint(cv);
    } else {
        let cv2 = settle_account_spec(cv, s[0]);
        lemma_settle_account_wf(cv, s[0]);
        lemma_run_to_settle_all(cv2, s.drop_first());
        lemma_settle_all_absorb(cv, s[0]);
    }
}

/// Pagination safety: two settlement schedules that both drain the backlog
/// — for instance many batches of one account each, against one unbounded
/// pass — leave the ledger, the balances and the supply in the same final
/// state. A backlog is drained exactly when a batch pass with a positive
/// limit returns no instruction.
pub proof fn lemma_pagination(cv: ContractV, s1: Seq<Seq<char>>, s2: Seq<Seq<char>>)
    requires
        wf(cv),
        !ledger_has_unsettled(settle_accounts_spec(cv, s1).ledger),
        !ledger_has_unsettled(settle_accounts_spec(cv, s2).ledger),
    ensures
        settle_accounts_spec(cv, s1) == settle_accounts_spec(cv, s2),
{
    lemma_run_to_settle_all(cv, s1);
    lemma_run_to_settle_all(cv, s2);
}

} // verus!
