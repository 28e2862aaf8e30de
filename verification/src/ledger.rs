//! The intent ledger: an append-mostly table from account to its pledges,
//! in mint order. Entries are never removed; the order of entries is the
//! order in which accounts first minted, and it is the order the batch
//! scheduler walks.

use vstd::prelude::*;

use crate::pledge::{has_intent_id, has_unsettled, is_unsettled, pledge_wf, pledges_view, PledgeV,
    SettleStatus, StripeIntent};

verus! {

/// One ledger entry: an account and its pledges in mint order.
pub struct IntentEntry {
    pub account_id: String,
    pub intents: Vec<StripeIntent>,
}

/// Mathematical value of one entry.
#[verifier::ext_equal]
pub ghost struct EntryV {
    pub account: Seq<char>,
    pub pledges: Seq<PledgeV>,
}

impl View for IntentEntry {
    type V = EntryV;

    open spec fn view(&self) -> EntryV {
        EntryV { account: self.account_id@, pledges: pledges_view(self.intents@) }
    }
}

/// The values carried by the ledger.
pub open spec fn ledger_view(s: Seq<IntentEntry>) -> Seq<EntryV> {
    s.map_values(|e: IntentEntry| e@)
}

/// Index of the first entry of account `a`, or `-1` if none is.
pub open spec fn find_entry(l: Seq<EntryV>, a: Seq<char>) -> int
    decreases l.len(),
{
    if l.len() == 0 {
        -1
    } else if l[0].account == a {
        0
    } else if find_entry(l.drop_first(), a) == -1 {
        -1
    } else {
        find_entry(l.drop_first(), a) + 1
    }
}

pub open spec fn has_entry(l: Seq<EntryV>, a: Seq<char>) -> bool {
    find_entry(l, a) != -1
}

/// The pledges minted to account `a`, oldest first; empty when the account
/// never minted.
pub open spec fn pledges_of(l: Seq<EntryV>, a: Seq<char>) -> Seq<PledgeV> {
    if find_entry(l, a) == -1 {
        Seq::<PledgeV>::empty()
    } else {
        l[find_entry(l, a)].pledges
    }
}

pub open spec fn unique_accounts(l: Seq<EntryV>) -> bool {
    forall|i: int, j: int| 0 <= i < j < l.len() ==> l[i].account != l[j].account
}

/// Every pledge of every entry carries its entry's account and satisfies
/// the partition law, and no account owns two entries.
pub open spec fn ledger_wf(l: Seq<EntryV>) -> bool {
    &&& unique_accounts(l)
    &&& forall|i: int, j: int|
        0 <= i < l.len() && 0 <= j < (#[trigger] l[i]).pledges.len() ==> (#[trigger] l[i].pledges[j]).account
            == l[i].account && pledge_wf(l[i].pledges[j])
}

/// Whether some entry of the ledger still has an unsettled pledge.
pub open spec fn ledger_has_unsettled(l: Seq<EntryV>) -> bool {
    exists|i: int| 0 <= i < l.len() && has_unsettled((#[trigger] l[i]).pledges)
}

/// What the first-match index means, as for accounts.
pub proof fn lemma_lfind_props(l: Seq<EntryV>, a: Seq<char>)
    ensures
        find_entry(l, a) == -1 ==> forall|j: int|
            0 <= j < l.len() ==> (#[trigger] l[j]).account != a,
        find_entry(l, a) != -1 ==> 0 <= find_entry(l, a) < l.len() && l[find_entry(l, a)].account
            == a && forall|j: int| 0 <= j < find_entry(l, a) ==> (#[trigger] l[j]).account != a,
    decreases l.len(),
{
    if l.len() > 0 && l[0].account != a {
        lemma_lfind_props(l.drop_first(), a);
        assert forall|j: int| 1 <= j < l.len() implies #[trigger] l[j] == l.drop_first()[j - 1] by {}
    }
}

/// With unique accounts the first match is the only match.
pub proof fn lemma_lfind_at(l: Seq<EntryV>, i: int)
    requires
        unique_accounts(l),
        0 <= i < l.len(),
    ensures
        find_entry(l, l[i].account) == i,
{
    lemma_lfind_props(l, l[i].account);
    let f = find_entry(l, l[i].account);
    if f == -1 {
        assert(l[i].account != l[i].account);
    }
}

/// Rewriting one entry without renaming its account moves no first-match
/// index.
pub proof fn lemma_lfind_update(l: Seq<EntryV>, i: int, v: EntryV, x: Seq<char>)
    requires
        0 <= i < l.len(),
        v.account == l[i].account,
    ensures
        find_entry(l.update(i, v), x) == find_entry(l, x),
    decreases l.len(),
{
    if i == 0 {
        assert(l.update(0, v).drop_first() =~= l.drop_first());
    } else {
        assert(l.update(i, v).drop_first() =~= l.drop_first().update(i - 1, v));
        lemma_lfind_update(l.drop_first(), i - 1, v, x);
    }
}

/// Where every lookup lands after one entry is rewritten in place.
pub proof fn lemma_pledges_of_update(l: Seq<EntryV>, i: int, v: EntryV, x: Seq<char>)
    requires
        unique_accounts(l),
        0 <= i < l.len(),
        v.account == l[i].account,
    ensures
        has_entry(l.update(i, v), x) == has_entry(l, x),
        pledges_of(l.update(i, v), x) == if x == l[i].account {
            v.pledges
        } else {
            pledges_of(l, x)
        },
        unique_accounts(l.update(i, v)),
{
    lemma_lfind_update(l, i, v, x);
    lemma_lfind_props(l, x);
    if x == l[i].account {
        lemma_lfind_at(l, i);
    }
}

/// Where every lookup lands after a fresh account's entry is appended.
pub proof fn lemma_lfind_push(l: Seq<EntryV>, e: EntryV, x: Seq<char>)
    ensures
        find_entry(l, x) != -1 ==> find_entry(l.push(e), x) == find_entry(l, x),
        find_entry(l, x) == -1 && e.account == x ==> find_entry(l.push(e), x) == l.len() as int,
        find_entry(l, x) == -1 && e.account != x ==> find_entry(l.push(e), x) == -1,
    decreases l.len(),
{
    if l.len() == 0 {
        assert(l.push(e)[0] == e);
        assert(l.push(e).drop_first() =~= Seq::<EntryV>::empty());
        assert(find_entry(l.push(e).drop_first(), x) == -1);
        if e.account == x {
            assert(find_entry(l.push(e), x) == 0);
        } else {
            assert(find_entry(l.push(e), x) == -1);
        }
    } else {
        assert(l.push(e)[0] == l[0]);
        assert(l.push(e).drop_first() =~= l.drop_first().push(e));
        lemma_lfind_props(l, x);
        lemma_lfind_props(l.drop_first(), x);
        lemma_lfind_push(l.drop_first(), e, x);
        assert(find_entry(l.push(e).drop_first(), x) == find_entry(l.drop_first().push(e), x));
    }
}

/// Where every lookup lands after a fresh, absent account's entry joins.
pub proof fn lemma_pledges_of_push(l: Seq<EntryV>, e: EntryV, x: Seq<char>)
    requires
        unique_accounts(l),
        !has_entry(l, e.account),
    ensures
        has_entry(l.push(e), x) == (has_entry(l, x) || x == e.account),
        pledges_of(l.push(e), x) == if x == e.account {
            e.pledges
        } else {
            pledges_of(l, x)
        },
        unique_accounts(l.push(e)),
{
    lemma_lfind_push(l, e, x);
    lemma_lfind_props(l, x);
    lemma_lfind_props(l, e.account);
    assert(l.push(e)[l.len() as int] == e);
    assert forall|i: int, j: int|
        0 <= i < j < l.push(e).len() implies l.push(e)[i].account != l.push(e)[j].account by {
        if j < l.len() {
        } else {
            assert(l.push(e)[j] == e);
        }
    }
}

/// First-match linear scan for an account's entry.
pub fn find_entry_index(entries: &Vec<IntentEntry>, account_id: &String) -> (r: Option<usize>)
    ensures
        match r {
            Some(i) => i < ledger_view(entries@).len() && find_entry(
                ledger_view(entries@),
                account_id@,
            ) == i as int,
            None => find_entry(ledger_view(entries@), account_id@) == -1,
        },
{
    let ghost l = ledger_view(entries@);
    let mut i: usize = 0;
    while i < entries.len()
        invariant
            i <= l.len(),
            l.len() == entries@.len(),
            l == ledger_view(entries@),
            forall|j: int| 0 <= j < i ==> (#[trigger] l[j]).account != account_id@,
        decreases entries@.len() - i,
    {
        if entries[i].account_id.eq(account_id) {
            proof {
                assert(l[i as int] == entries@[i as int]@);
                lemma_lfind_props(l, account_id@);
                let f = find_entry(l, account_id@);
                if f == -1 {
                    assert(l[i as int].account != account_id@);
                } else if f < i as int {
                    assert(l[f].account != account_id@);
                } else if f > i as int {
                    assert(l[i as int].account != account_id@);
                }
            }
            return Some(i);
        }
        i = i + 1;
    }
    proof {
        lemma_lfind_props(l, account_id@);
    }
    None
}

/// Whether any pledge of the list carries the identifier `intent_id`.
pub fn intents_contain_id(ps: &Vec<StripeIntent>, intent_id: &String) -> (r: bool)
    ensures
        r == has_intent_id(pledges_view(ps@), intent_id@),
{
    let ghost pv = pledges_view(ps@);
    let mut i: usize = 0;
    while i < ps.len()
        invariant
            i <= pv.len(),
            pv.len() == ps@.len(),
            pv == pledges_view(ps@),
            forall|j: int| 0 <= j < i ==> (#[trigger] pv[j]).id != intent_id@,
        decreases ps@.len() - i,
    {
        if ps[i].intent_id.eq(intent_id) {
            proof {
                assert(pv[i as int] == ps@[i as int]@);
                assert(pv[i as int].id == intent_id@);
            }
            return true;
        }
        proof {
            assert(pv[i as int] == ps@[i as int]@);
        }
        i = i + 1;
    }
    false
}

/// Whether any pledge of the list still awaits settlement.
pub fn intents_have_unsettled(ps: &Vec<StripeIntent>) -> (r: bool)
    ensures
        r == has_unsettled(pledges_view(ps@)),
{
    let ghost pv = pledges_view(ps@);
    let mut i: usize = 0;
    while i < ps.len()
        invariant
            i <= pv.len(),
            pv.len() == ps@.len(),
            pv == pledges_view(ps@),
            forall|j: int| 0 <= j < i ==> !is_unsettled(#[trigger] pv[j]),
        decreases ps@.len() - i,
    {
        match ps[i].status {
            SettleStatus::Unsettled => {
                proof {
                    assert(pv[i as int] == ps@[i as int]@);
                    assert(is_unsettled(pv[i as int]));
                }
                return true;
            },
            SettleStatus::Settled { .. } => {
                proof {
                    assert(pv[i as int] == ps@[i as int]@);
                }
            },
        }
        i = i + 1;
    }
    false
}

} // verus!
