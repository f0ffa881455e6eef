//! The mathematical model of a replica and of the phases of a merge.
//!
//! A replica is modelled by [`Replica`]: its scalars and three finite maps.
//! Each phase of the merge is a function from the receiving replica and the
//! peer's snapshot to the receiving replica's next state. The executable
//! code in `handoff` is proved to compute exactly these functions.
use crate::sums::{non_negative, total};
use vstd::prelude::*;

verus! {

/// What a slot records: the peer's source clock and the owner's destination
/// clock at the time the slot was made.
pub type Clocks = (u32, u32);

/// What a token carries: the clocks of the slot it answers, and the amount.
pub type Token = (Clocks, i64);

/// The key of a token: the replica it comes from, then the one it is for.
pub type Route<K> = (K, K);

/// The state of one replica.
#[verifier::reject_recursive_types(K)]
pub struct Replica<K> {
    /// This replica's identifier.
    pub id: K,
    /// Its tier: 0 for a root, larger towards the leaves.
    pub tier: u32,
    /// The count it reports.
    pub val: i64,
    /// The largest count that a replica of a lower tier is known to cover.
    pub below: i64,
    /// The last known contribution of each replica; its own is pending.
    pub vals: Map<K, i64>,
    /// How many tokens it has made.
    pub sck: u32,
    /// How many slots it has made.
    pub dck: u32,
    /// Its open invitations, by the invited peer.
    pub slots: Map<K, Clocks>,
    /// The tokens it holds, its own and those it relays.
    pub tokens: Map<Route<K>, Token>,
}

/// The larger of two counts.
pub open spec fn larger(a: int, b: int) -> int {
    if a >= b {
        a
    } else {
        b
    }
}

/// The pointwise maximum of two vectors of contributions, over the keys of
/// either.
pub open spec fn joined<K>(a: Map<K, i64>, b: Map<K, i64>) -> Map<K, i64> {
    Map::new(
        |k: K| a.contains_key(k) || b.contains_key(k),
        |k: K|
            if a.contains_key(k) && b.contains_key(k) {
                if a[k] >= b[k] {
                    a[k]
                } else {
                    b[k]
                }
            } else if a.contains_key(k) {
                a[k]
            } else {
                b[k]
            },
    )
}

impl<K> Replica<K> {
    /// The state of a replica that has counted nothing yet.
    pub open spec fn fresh(id: K, tier: u32, sck: u32, dck: u32) -> Replica<K> {
        Replica {
            id,
            tier,
            val: 0,
            below: 0,
            vals: Map::empty().insert(id, 0i64),
            sck,
            dck,
            slots: Map::empty(),
            tokens: Map::empty(),
        }
    }

    /// What holds of every replica: its maps are finite, it knows its own
    /// contribution, and no count or amount is negative.
    pub open spec fn wf(self) -> bool {
        &&& self.vals.dom().finite()
        &&& self.slots.dom().finite()
        &&& self.tokens.dom().finite()
        &&& self.vals.contains_key(self.id)
        &&& non_negative(self.vals)
        &&& self.val >= 0
        &&& self.below >= 0
        &&& forall|r: Route<K>| #[trigger] self.tokens.contains_key(r) ==> self.tokens[r].1 >= 0
    }

    /// The contribution that this replica has not handed off yet.
    pub open spec fn pending(self) -> i64 {
        self.vals[self.id]
    }

    // ----- local increment -----
    /// Whether one more increment fits the counters.
    pub open spec fn inc_fits(self) -> bool {
        self.val < i64::MAX && self.pending() < i64::MAX
    }

    /// The state after one local increment.
    pub open spec fn inc(self) -> Replica<K> {
        Replica {
            val: (self.val + 1) as i64,
            vals: self.vals.insert(self.id, (self.pending() + 1) as i64),
            ..self
        }
    }

    // ----- fill slots -----
    /// Whether the peer holds a token from `src` for this replica that
    /// answers this replica's slot for `src`: same clocks, both of them.
    pub open spec fn fills(self, peer: Replica<K>, src: K) -> bool {
        &&& peer.tokens.contains_key((src, self.id))
        &&& self.slots.contains_key(src)
        &&& self.slots[src] == peer.tokens[(src, self.id)].0
    }

    /// The amounts that the peer's tokens deliver, by the slot they fill.
    pub open spec fn credits(self, peer: Replica<K>) -> Map<K, i64> {
        Map::new(|src: K| self.fills(peer, src), |src: K| peer.tokens[(src, self.id)].1)
    }

    /// Whether the delivered amounts fit the pending contribution.
    pub open spec fn fill_fits(self, peer: Replica<K>) -> bool {
        self.pending() + total(self.credits(peer)) <= i64::MAX
    }

    /// Every filled slot is closed and its token's amount is added to the
    /// pending contribution.
    pub open spec fn fill_slots(self, peer: Replica<K>) -> Replica<K> {
        Replica {
            vals: self.vals.insert(
                self.id,
                (self.pending() + total(self.credits(peer))) as i64,
            ),
            slots: self.slots.remove_keys(self.credits(peer).dom()),
            ..self
        }
    }

    // ----- discard a slot -----
    /// Whether the slot for the peer can no longer be filled: the peer's
    /// source clock has passed the one recorded.
    pub open spec fn outdated(self, peer: Replica<K>) -> bool {
        self.slots.contains_key(peer.id) && self.slots[peer.id].0 < peer.sck
    }

    /// The slot for the peer is closed where it is outdated.
    pub open spec fn discard_slot(self, peer: Replica<K>) -> Replica<K> {
        if self.outdated(peer) {
            Replica { slots: self.slots.remove(peer.id), ..self }
        } else {
            self
        }
    }

    // ----- create a slot -----
    /// Whether this replica invites the peer: the peer is of a higher tier,
    /// has something pending, and has no slot here yet.
    pub open spec fn invites(self, peer: Replica<K>) -> bool {
        self.tier < peer.tier && peer.pending() > 0 && !self.slots.contains_key(peer.id)
    }

    /// Whether the destination clock can tick where a slot is made.
    pub open spec fn create_slot_fits(self, peer: Replica<K>) -> bool {
        self.invites(peer) ==> self.dck < u32::MAX
    }

    /// Where this replica invites the peer, a slot with the peer's source
    /// clock and this replica's destination clock is opened, and the
    /// destination clock ticks.
    pub open spec fn create_slot(self, peer: Replica<K>) -> Replica<K> {
        if self.invites(peer) {
            Replica {
                slots: self.slots.insert(peer.id, (peer.sck, self.dck)),
                dck: (self.dck + 1) as u32,
                ..self
            }
        } else {
            self
        }
    }

    // ----- merge vectors -----
    /// Two roots join their vectors of contributions; others keep theirs.
    pub open spec fn merge_vectors(self, peer: Replica<K>) -> Replica<K> {
        if self.tier == 0 && peer.tier == 0 {
            Replica { vals: joined(self.vals, peer.vals), ..self }
        } else {
            self
        }
    }

    // ----- aggregate -----
    /// `below` rises to what a peer of the same tier knows, or to what a
    /// peer of a lower tier reports.
    pub open spec fn update_below(self, peer: Replica<K>) -> Replica<K> {
        if self.tier == peer.tier {
            Replica { below: larger(self.below as int, peer.below as int) as i64, ..self }
        } else if self.tier > peer.tier {
            Replica { below: larger(self.below as int, peer.val as int) as i64, ..self }
        } else {
            self
        }
    }

    /// The count that `update_val` reports, as a mathematical integer.
    pub open spec fn reported(self, peer: Replica<K>) -> int {
        if self.tier == 0 {
            total(self.vals)
        } else if self.tier == peer.tier {
            larger(larger(self.val as int, peer.val as int), self.below + self.val + peer.val)
        } else {
            larger(self.val as int, self.below + self.pending())
        }
    }

    /// Whether the sums that `update_val` forms fit the counter.
    pub open spec fn update_val_fits(self, peer: Replica<K>) -> bool {
        if self.tier == 0 {
            total(self.vals) <= i64::MAX
        } else if self.tier == peer.tier {
            self.below + self.val + peer.val <= i64::MAX
        } else {
            self.below + self.pending() <= i64::MAX
        }
    }

    /// The reported count is recomputed: at a root the sum of the vector,
    /// elsewhere never less than before.
    pub open spec fn update_val(self, peer: Replica<K>) -> Replica<K> {
        Replica { val: self.reported(peer) as i64, ..self }
    }

    /// Whether the sums of the aggregation fit.
    pub open spec fn aggregate_fits(self, peer: Replica<K>) -> bool {
        self.update_below(peer).update_val_fits(peer)
    }

    /// `update_below`, then `update_val`.
    pub open spec fn aggregate(self, peer: Replica<K>) -> Replica<K> {
        self.update_below(peer).update_val(peer)
    }

    // ----- discard tokens -----
    /// Whether the peer's state shows that a token for it is of no use any
    /// more: the peer has a newer slot for the token's source, or it has
    /// none and its destination clock has passed the token's.
    pub open spec fn stale(peer: Replica<K>, route: Route<K>, token: Token) -> bool {
        &&& route.1 == peer.id
        &&& if peer.slots.contains_key(route.0) {
            peer.slots[route.0].1 > token.0.1
        } else {
            peer.dck > token.0.1
        }
    }

    /// The tokens that are stale in view of the peer are dropped.
    pub open spec fn discard_tokens(self, peer: Replica<K>) -> Replica<K> {
        Replica {
            tokens: Map::new(
                |r: Route<K>| self.tokens.contains_key(r) && !Self::stale(peer, r, self.tokens[r]),
                |r: Route<K>| self.tokens[r],
            ),
            ..self
        }
    }

    // ----- create a token -----
    /// Whether the peer holds a slot for this replica that records this
    /// replica's current source clock.
    pub open spec fn answers(self, peer: Replica<K>) -> bool {
        peer.slots.contains_key(self.id) && peer.slots[self.id].0 == self.sck
    }

    /// Whether the source clock can tick where a token is made.
    pub open spec fn create_token_fits(self, peer: Replica<K>) -> bool {
        self.answers(peer) ==> self.sck < u32::MAX
    }

    /// Where this replica answers the peer's slot, the pending contribution
    /// moves into a token for the peer that carries the slot's clocks, and
    /// the source clock ticks.
    pub open spec fn create_token(self, peer: Replica<K>) -> Replica<K> {
        if self.answers(peer) {
            Replica {
                tokens: self.tokens.insert(
                    (self.id, peer.id),
                    (peer.slots[self.id], self.pending()),
                ),
                vals: self.vals.insert(self.id, 0i64),
                sck: (self.sck + 1) as u32,
                ..self
            }
        } else {
            self
        }
    }

    // ----- cache tokens -----
    /// Whether the peer's token on `route` is taken over: the peer made it,
    /// it is for a third replica, and no copy held here has a later source
    /// clock.
    pub open spec fn relays(self, peer: Replica<K>, route: Route<K>) -> bool {
        &&& peer.tokens.contains_key(route)
        &&& route.0 == peer.id
        &&& route.1 != self.id
        &&& self.tokens.contains_key(route) ==> peer.tokens[route].0.0 >= self.tokens[route].0.0
    }

    /// A replica of a lower tier than the peer takes over the peer's own
    /// tokens for third replicas.
    pub open spec fn cache_tokens(self, peer: Replica<K>) -> Replica<K> {
        if self.tier < peer.tier {
            Replica {
                tokens: Map::new(
                    |r: Route<K>| self.tokens.contains_key(r) || self.relays(peer, r),
                    |r: Route<K>|
                        if self.relays(peer, r) {
                            peer.tokens[r]
                        } else {
                            self.tokens[r]
                        },
                ),
                ..self
            }
        } else {
            self
        }
    }

    // ----- the merge -----
    /// The state after the first four phases: slots filled, discarded and
    /// created, and the vectors of two roots joined.
    pub open spec fn settled(self, peer: Replica<K>) -> Replica<K> {
        self.fill_slots(peer).discard_slot(peer).create_slot(peer).merge_vectors(peer)
    }

    /// The state after the aggregation and the discarding of stale tokens.
    pub open spec fn acknowledged(self, peer: Replica<K>) -> Replica<K> {
        self.settled(peer).aggregate(peer).discard_tokens(peer)
    }

    /// Whether every sum and clock tick of a merge fits its machine type.
    pub open spec fn merge_fits(self, peer: Replica<K>) -> bool {
        &&& self.fill_fits(peer)
        &&& self.fill_slots(peer).discard_slot(peer).create_slot_fits(peer)
        &&& self.settled(peer).aggregate_fits(peer)
        &&& self.acknowledged(peer).create_token_fits(peer)
    }

    /// The whole merge: the eight phases in their fixed order.
    pub open spec fn merge(self, peer: Replica<K>) -> Replica<K> {
        self.acknowledged(peer).create_token(peer).cache_tokens(peer)
    }
}

} // verus!
