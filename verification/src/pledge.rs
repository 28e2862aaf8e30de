//! Pledge records: one external payment hold, minted as token balance and
//! later settled into a burned part and a captured part.

use vstd::prelude::*;

verus! {

/// Settlement state of a pledge. `Settled` is terminal: once written it
/// never changes again.
#[derive(Clone, Copy, Debug, PartialEq, Eq, Structural)]
pub enum SettleStatus {
    Unsettled,
    Settled { burn_amount: u128, capture_amount: u128 },
}

/// One pledge: a hold of `intent_balance` tokens, authorized externally
/// under `intent_id`, minted to `account_id`. A permanent audit record:
/// pledges are appended at mint and mutated exactly once, at settlement.
#[derive(Debug)]
pub struct StripeIntent {
    pub account_id: String,
    pub intent_id: String,
    pub intent_balance: u128,
    pub status: SettleStatus,
}

/// Mathematical value of a `SettleStatus`.
#[verifier::ext_equal]
pub ghost enum StatusV {
    Unsettled,
    Settled { burn: nat, capture: nat },
}

/// Mathematical value of a pledge.
#[verifier::ext_equal]
pub ghost struct PledgeV {
    pub account: Seq<char>,
    pub id: Seq<char>,
    pub amount: nat,
    pub status: StatusV,
}

impl View for SettleStatus {
    type V = StatusV;

    open spec fn view(&self) -> StatusV {
        match *self {
            SettleStatus::Unsettled => StatusV::Unsettled,
            SettleStatus::Settled { burn_amount, capture_amount } => StatusV::Settled {
                burn: burn_amount as nat,
                capture: capture_amount as nat,
            },
        }
    }
}

impl View for StripeIntent {
    type V = PledgeV;

    open spec fn view(&self) -> PledgeV {
        PledgeV {
            account: self.account_id@,
            id: self.intent_id@,
            amount: self.intent_balance as nat,
            status: self.status@,
        }
    }
}

/// The values of a whole pledge sequence.
pub open spec fn pledges_view(s: Seq<StripeIntent>) -> Seq<PledgeV> {
    s.map_values(|p: StripeIntent| p@)
}

pub open spec fn is_unsettled(p: PledgeV) -> bool {
    p.status is Unsettled
}

/// The partition law on a single pledge: a settled pledge splits its amount
/// exactly into the burned part and the captured part.
pub open spec fn pledge_wf(p: PledgeV) -> bool {
    match p.status {
        StatusV::Unsettled => true,
        StatusV::Settled { burn, capture } => burn + capture == p.amount,
    }
}

/// Whether some pledge of the sequence still awaits settlement.
pub open spec fn has_unsettled(ps: Seq<PledgeV>) -> bool {
    exists|j: int| 0 <= j < ps.len() && is_unsettled(#[trigger] ps[j])
}

/// Whether some pledge of the sequence carries the identifier `id`.
pub open spec fn has_intent_id(ps: Seq<PledgeV>, id: Seq<char>) -> bool {
    exists|j: int| 0 <= j < ps.len() && (#[trigger] ps[j]).id == id
}

} // verus!
