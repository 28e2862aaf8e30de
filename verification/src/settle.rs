//! The FIFO settlement engine.
//!
//! Settlement replays an account's pledges in mint order against its current
//! balance: the oldest pledge first is treated as still backed by balance
//! (burned, i.e. released to the holder of the authorization), and whatever
//! the balance cannot cover is captured from the original authorization.

use vstd::prelude::*;

use crate::pledge::{
    has_unsettled, is_unsettled, pledge_wf, pledges_view, PledgeV, SettleStatus, StatusV,
    StripeIntent,
};

verus! {

/// How much of a pledge of size `amount` the remaining balance `bal` still
/// backs: the whole pledge if the balance suffices, the balance otherwise.
pub open spec fn burn_of(bal: nat, amount: nat) -> nat {
    if amount <= bal {
        amount
    } else {
        bal
    }
}

/// The terminal record written for one unsettled pledge met with remaining
/// balance `bal`.
pub open spec fn settled_pledge(p: PledgeV, bal: nat) -> PledgeV {
    PledgeV {
        status: StatusV::Settled {
            burn: burn_of(bal, p.amount),
            capture: (p.amount - burn_of(bal, p.amount)) as nat,
        },
        ..p
    }
}

/// The pledge sequence after one settlement pass with starting balance
/// `bal`: already settled pledges are kept as they are, each unsettled
/// pledge is settled against the balance left by the pledges before it.
pub open spec fn settle_pledges(ps: Seq<PledgeV>, bal: nat) -> Seq<PledgeV>
    decreases ps.len(),
{
    if ps.len() == 0 {
        Seq::<PledgeV>::empty()
    } else if is_unsettled(ps[0]) {
        seq![settled_pledge(ps[0], bal)] + settle_pledges(
            ps.drop_first(),
            (bal - burn_of(bal, ps[0].amount)) as nat,
        )
    } else {
        seq![ps[0]] + settle_pledges(ps.drop_first(), bal)
    }
}

/// The balance left over after the pass: the starting balance minus every
/// burn the pass applies.
pub open spec fn balance_after(ps: Seq<PledgeV>, bal: nat) -> nat
    decreases ps.len(),
{
    if ps.len() == 0 {
        bal
    } else if is_unsettled(ps[0]) {
        balance_after(ps.drop_first(), (bal - burn_of(bal, ps[0].amount)) as nat)
    } else {
        balance_after(ps.drop_first(), bal)
    }
}

/// The capture instructions the pass returns: one `(pledge id, captured
/// amount)` pair per pledge settled by this pass, in mint order.
pub open spec fn capture_plan(ps: Seq<PledgeV>, bal: nat) -> Seq<(Seq<char>, nat)>
    decreases ps.len(),
{
    if ps.len() == 0 {
        Seq::<(Seq<char>, nat)>::empty()
    } else if is_unsettled(ps[0]) {
        seq![(ps[0].id, (ps[0].amount - burn_of(bal, ps[0].amount)) as nat)] + capture_plan(
            ps.drop_first(),
            (bal - burn_of(bal, ps[0].amount)) as nat,
        )
    } else {
        capture_plan(ps.drop_first(), bal)
    }
}

/// The values carried by an executable capture plan.
pub open spec fn plan_view(s: Seq<(String, u128)>) -> Seq<(Seq<char>, nat)> {
    s.map_values(|e: (String, u128)| (e.0@, e.1 as nat))
}

/// Shape of one settlement pass: it keeps length, identity and amount of
/// every pledge, never rewrites an already settled pledge, leaves every
/// pledge settled, preserves the partition law, and never burns more than
/// the starting balance.
pub proof fn lemma_settle_basic(ps: Seq<PledgeV>, bal: nat)
    ensures
        settle_pledges(ps, bal).len() == ps.len(),
        forall|j: int|
            0 <= j < ps.len() ==> (#[trigger] settle_pledges(ps, bal)[j]).account == ps[j].account,
        forall|j: int|
            0 <= j < ps.len() ==> (#[trigger] settle_pledges(ps, bal)[j]).id == ps[j].id,
        forall|j: int|
            0 <= j < ps.len() ==> (#[trigger] settle_pledges(ps, bal)[j]).amount == ps[j].amount,
        forall|j: int|
            0 <= j < ps.len() && !is_unsettled(ps[j]) ==> #[trigger] settle_pledges(ps, bal)[j]
                == ps[j],
        forall|j: int|
            0 <= j < ps.len() ==> !is_unsettled(#[trigger] settle_pledges(ps, bal)[j]),
        forall|j: int|
            0 <= j < ps.len() ==> pledge_wf(#[trigger] settle_pledges(ps, bal)[j]) == pledge_wf(
                ps[j],
            ),
        balance_after(ps, bal) <= bal,
    decreases ps.len(),
{
    if ps.len() > 0 {
        let rest = ps.drop_first();
        let b2 = if is_unsettled(ps[0]) {
            (bal - burn_of(bal, ps[0].amount)) as nat
        } else {
            bal
        };
        lemma_settle_basic(rest, b2);
        assert forall|j: int| 1 <= j < ps.len() implies #[trigger] settle_pledges(ps, bal)[j]
            == settle_pledges(rest, b2)[j - 1] by {}
    }
}

/// The pass settles something exactly when an unsettled pledge exists, and
/// then its plan is non-empty.
pub proof fn lemma_plan_len(ps: Seq<PledgeV>, bal: nat)
    ensures
        capture_plan(ps, bal).len() > 0 <==> has_unsettled(ps),
    decreases ps.len(),
{
    if ps.len() > 0 {
        let rest = ps.drop_first();
        let b2 = if is_unsettled(ps[0]) {
            (bal - burn_of(bal, ps[0].amount)) as nat
        } else {
            bal
        };
        lemma_plan_len(rest, b2);
        if has_unsettled(rest) {
            let j = choose|j: int| 0 <= j < rest.len() && is_unsettled(rest[j]);
            assert(is_unsettled(ps[j + 1]));
        }
        if has_unsettled(ps) && !is_unsettled(ps[0]) {
            let j = choose|j: int| 0 <= j < ps.len() && is_unsettled(ps[j]);
            assert(is_unsettled(rest[j - 1]));
        }
    }
}

/// A pass over pledges that are all settled already changes nothing,
/// burns nothing and returns no instruction.
pub proof fn lemma_settle_noop(ps: Seq<PledgeV>, bal: nat)
    requires
        !has_unsettled(ps),
    ensures
        settle_pledges(ps, bal) == ps,
        balance_after(ps, bal) == bal,
        capture_plan(ps, bal).len() == 0,
    decreases ps.len(),
{
    if ps.len() == 0 {
        assert(settle_pledges(ps, bal) =~= ps);
    } else {
        let rest = ps.drop_first();
        assert(!is_unsettled(ps[0]));
        assert forall|j: int| 0 <= j < rest.len() implies !is_unsettled(#[trigger] rest[j]) by {
            assert(!is_unsettled(ps[j + 1]));
        }
        lemma_settle_noop(rest, bal);
        assert(settle_pledges(ps, bal) =~= ps);
    }
}

/// Extending the pledge sequence by one pledge extends the pass by one
/// step, applied to the balance the earlier pledges leave over.
pub proof fn lemma_settle_snoc(ps: Seq<PledgeV>, p: PledgeV, bal: nat)
    ensures
        settle_pledges(ps.push(p), bal) == settle_pledges(ps, bal).push(
            if is_unsettled(p) {
                settled_pledge(p, balance_after(ps, bal))
            } else {
                p
            },
        ),
        balance_after(ps.push(p), bal) == (if is_unsettled(p) {
            (balance_after(ps, bal) - burn_of(balance_after(ps, bal), p.amount)) as nat
        } else {
            balance_after(ps, bal)
        }),
        capture_plan(ps.push(p), bal) == (if is_unsettled(p) {
            capture_plan(ps, bal).push(
                (p.id, (p.amount - burn_of(balance_after(ps, bal), p.amount)) as nat),
            )
        } else {
            capture_plan(ps, bal)
        }),
    decreases ps.len(),
{
    let q = ps.push(p);
    if ps.len() == 0 {
        reveal_with_fuel(settle_pledges, 2);
        reveal_with_fuel(balance_after, 2);
        reveal_with_fuel(capture_plan, 2);
        assert(q[0] == p);
        assert(q.drop_first() =~= Seq::<PledgeV>::empty());
        if is_unsettled(p) {
            assert(settle_pledges(q, bal) =~= settle_pledges(ps, bal).push(
                settled_pledge(p, balance_after(ps, bal)),
            ));
            assert(capture_plan(q, bal) =~= capture_plan(ps, bal).push(
                (p.id, (p.amount - burn_of(balance_after(ps, bal), p.amount)) as nat),
            ));
        } else {
            assert(settle_pledges(q, bal) =~= settle_pledges(ps, bal).push(p));
            assert(capture_plan(q, bal) =~= capture_plan(ps, bal));
        }
    } else {
        assert(q[0] == ps[0]);
        assert(q.drop_first() =~= ps.drop_first().push(p));
        let b2 = if is_unsettled(ps[0]) {
            (bal - burn_of(bal, ps[0].amount)) as nat
        } else {
            bal
        };
        lemma_settle_snoc(ps.drop_first(), p, b2);
        if is_unsettled(p) {
            assert(settle_pledges(q, bal) =~= settle_pledges(ps, bal).push(
                settled_pledge(p, balance_after(ps, bal)),
            ));
            assert(capture_plan(q, bal) =~= capture_plan(ps, bal).push(
                (p.id, (p.amount - burn_of(balance_after(ps, bal), p.amount)) as nat),
            ));
        } else {
            assert(settle_pledges(q, bal) =~= settle_pledges(ps, bal).push(p));
            assert(capture_plan(q, bal) =~= capture_plan(ps, bal));
        }
    }
}

/// One settlement pass, in place: settles every unsettled pledge of `ps`
/// in order against `balance`, pushes one capture instruction per pledge it
/// settles, and returns the plan with the balance left over.
pub fn settle_intents(ps: &mut Vec<StripeIntent>, balance: u128) -> (r: (Vec<(String, u128)>, u128))
    ensures
        pledges_view(final(ps)@) == settle_pledges(pledges_view(old(ps)@), balance as nat),
        plan_view(r.0@) == capture_plan(pledges_view(old(ps)@), balance as nat),
        r.1 as nat == balance_after(pledges_view(old(ps)@), balance as nat),
{
    let ghost orig: Seq<PledgeV> = pledges_view(ps@);
    let mut plan: Vec<(String, u128)> = Vec::new();
    let mut running: u128 = balance;
    let mut i: usize = 0;
    while i < ps.len()
        invariant
            i <= ps@.len(),
            ps@.len() == orig.len(),
            forall|j: int| i <= j < ps@.len() ==> (#[trigger] ps@[j])@ == orig[j],
            pledges_view(ps@.take(i as int)) == settle_pledges(orig.take(i as int), balance as nat),
            plan_view(plan@) == capture_plan(orig.take(i as int), balance as nat),
            running as nat == balance_after(orig.take(i as int), balance as nat),
        decreases ps@.len() - i,
    {
        let ghost prefix = orig.take(i as int);
        proof {
            assert(orig.take(i + 1) =~= prefix.push(orig[i as int]));
            lemma_settle_snoc(prefix, orig[i as int], balance as nat);
        }
        match ps[i].status {
            SettleStatus::Unsettled => {
                let amount = ps[i].intent_balance;
                let burn = if running > amount {
                    amount
                } else {
                    running
                };
                let capture = amount - burn;
                running = running - burn;
                plan.push((ps[i].intent_id.clone(), capture));
                ps[i].status = SettleStatus::Settled { burn_amount: burn, capture_amount: capture };
                proof {
                    assert(ps@[i as int]@ == settled_pledge(orig[i as int], balance_after(prefix, balance as nat)));
                }
            },
            SettleStatus::Settled { .. } => {
                proof {
                    assert(!is_unsettled(orig[i as int]));
                }
            },
        }
        i = i + 1;
        proof {
            assert(pledges_view(ps@.take(i as int)) =~= settle_pledges(
                orig.take(i as int),
                balance as nat,
            ));
            assert(plan_view(plan@) =~= capture_plan(orig.take(i as int), balance as nat));
        }
    }
    proof {
        assert(orig.take(orig.len() as int) =~= orig);
        assert(ps@.take(ps@.len() as int) =~= ps@);
        assert(pledges_view(ps@) =~= pledges_view(ps@.take(ps@.len() as int)));
    }
    (plan, running)
}

} // verus!
