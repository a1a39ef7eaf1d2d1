//! Where the subscriptions of a board have got to.

use vstd::prelude::*;

use crate::tables;
use crate::text;

verus! {

pub const SUBSCRIPTION_STATUSES: [&'static str; 2] = ["active", "paused"];

pub const SUBSCRIPTION_PROTOCOL_VERSION: i64 = 1;

/// Where one subscription has got to, summed up from its deliveries.
#[derive(Debug, Clone, Copy, PartialEq, Eq)]
pub struct SubscriptionPosition {
    /// The highest acknowledged sequence number, where there is one.
    pub acked_through_seq: Option<i64>,
    pub pending: i64,
    pub leased: i64,
    pub retry_wait: i64,
    pub dead_letter: i64,
}

/// Nothing acknowledged and nothing queued.
pub open spec fn at_start() -> SubscriptionPosition {
    SubscriptionPosition {
        acked_through_seq: None,
        pending: 0,
        leased: 0,
        retry_wait: 0,
        dead_letter: 0,
    }
}

impl Default for SubscriptionPosition {
    fn default() -> (r: Self)
        ensures
            r == at_start(),
    {
        SubscriptionPosition {
            acked_through_seq: None,
            pending: 0,
            leased: 0,
            retry_wait: 0,
            dead_letter: 0,
        }
    }
}

/// One code that dead-lettered deliveries were refused with, and how many carry it.
#[derive(Debug, Clone, PartialEq, Eq)]
pub struct DeadLetterCode {
    pub code: String,
    pub deliveries: i64,
}

/// The position of one subscription.
#[derive(Debug, Clone)]
pub struct PositionEntry {
    pub subscription_id: String,
    pub position: SubscriptionPosition,
}

/// The codes behind the dead letters of one subscription.
#[derive(Debug, Clone)]
pub struct DeadLetterEntry {
    pub subscription_id: String,
    pub codes: Vec<DeadLetterCode>,
}

/// The positions of every subscription of one board, with the head of that board and
/// the codes behind the dead letters: each means something only beside the others.
#[derive(Debug, Clone)]
pub struct SubscriptionPositions {
    pub head_event_seq: i64,
    pub by_subscription: Vec<PositionEntry>,
    pub dead_letters: Vec<DeadLetterEntry>,
}

pub open spec fn position_of(id: Seq<char>) -> spec_fn(PositionEntry) -> bool {
    |e: PositionEntry| e.subscription_id@ == id
}

pub open spec fn letters_of(id: Seq<char>) -> spec_fn(DeadLetterEntry) -> bool {
    |e: DeadLetterEntry| e.subscription_id@ == id
}

impl Default for SubscriptionPositions {
    fn default() -> (r: Self)
        ensures
            r.head_event_seq == 0,
            r.by_subscription@.len() == 0,
            r.dead_letters@.len() == 0,
    {
        SubscriptionPositions {
            head_event_seq: 0,
            by_subscription: Vec::new(),
            dead_letters: Vec::new(),
        }
    }
}

impl SubscriptionPositions {
    /// Each subscription has at most one entry of a kind.
    pub open spec fn wf(self) -> bool {
        &&& forall|i: int, j: int|
            0 <= i < j < self.by_subscription@.len()
                ==> (#[trigger] self.by_subscription@[i]).subscription_id@ != (
            #[trigger] self.by_subscription@[j]).subscription_id@
        &&& forall|i: int, j: int|
            0 <= i < j < self.dead_letters@.len()
                ==> (#[trigger] self.dead_letters@[i]).subscription_id@ != (
            #[trigger] self.dead_letters@[j]).subscription_id@
    }

    /// The position of a subscription. One without deliveries has one too.
    pub fn position(&self, subscription_id: &str) -> (r: SubscriptionPosition)
        ensures
            ({
                let n = tables::first_index(self.by_subscription@, position_of(subscription_id@));
                r == if n < self.by_subscription@.len() {
                    self.by_subscription@[n].position
                } else {
                    at_start()
                }
            }),
            self.wf() ==> forall|i: int|
                0 <= i < self.by_subscription@.len()
                    && (#[trigger] self.by_subscription@[i]).subscription_id@ == subscription_id@
                    ==> r == self.by_subscription@[i].position,
    {
        let ghost p = position_of(subscription_id@);
        let ghost all = self.by_subscription@;
        let mut i: usize = 0;
        while i < self.by_subscription.len() && !text::same(
            self.by_subscription[i].subscription_id.as_str(),
            subscription_id,
        )
            invariant
                i <= all.len(),
                all == self.by_subscription@,
                p == position_of(subscription_id@),
                forall|k: int| 0 <= k < i ==> !p(#[trigger] all[k]),
            decreases self.by_subscription.len() - i,
        {
            i = i + 1;
        }
        proof {
            tables::lemma_first_index_is(all, p, i as int);
            assert forall|k: int|
                0 <= k < all.len() && (#[trigger] all[k]).subscription_id@
                    == subscription_id@ implies k >= i by {
                assert(p(all[k]));
            }
        }
        if i < self.by_subscription.len() {
            self.by_subscription[i].position
        } else {
            SubscriptionPosition::default()
        }
    }

    /// The codes behind the dead letters of a subscription; none where it has none.
    pub fn dead_letter_codes(&self, subscription_id: &str) -> (r: &[DeadLetterCode])
        ensures
            ({
                let n = tables::first_index(self.dead_letters@, letters_of(subscription_id@));
                r@ == if n < self.dead_letters@.len() {
                    self.dead_letters@[n].codes@
                } else {
                    seq![]
                }
            }),
            self.wf() ==> forall|i: int|
                0 <= i < self.dead_letters@.len()
                    && (#[trigger] self.dead_letters@[i]).subscription_id@ == subscription_id@
                    ==> r@ == self.dead_letters@[i].codes@,
    {
        let ghost p = letters_of(subscription_id@);
        let ghost all = self.dead_letters@;
        let mut i: usize = 0;
        while i < self.dead_letters.len() && !text::same(
            self.dead_letters[i].subscription_id.as_str(),
            subscription_id,
        )
            invariant
                i <= all.len(),
                all == self.dead_letters@,
                p == letters_of(subscription_id@),
                forall|k: int| 0 <= k < i ==> !p(#[trigger] all[k]),
            decreases self.dead_letters.len() - i,
        {
            i = i + 1;
        }
        proof {
            tables::lemma_first_index_is(all, p, i as int);
            assert forall|k: int|
                0 <= k < all.len() && (#[trigger] all[k]).subscription_id@
                    == subscription_id@ implies k >= i by {
                assert(p(all[k]));
            }
        }
        if i < self.dead_letters.len() {
            self.dead_letters[i].codes.as_slice()
        } else {
            let none: &[DeadLetterCode] = &[];
            proof {
                assert(none@ =~= seq![]);
            }
            none
        }
    }
}

} // verus!
