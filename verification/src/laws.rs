//! What holds of the counter across calls, proved over the model that the
//! contracts of `Handoff` are stated in.
use crate::model::{joined, Replica, Route};
use crate::sums::{
    lemma_total_empty, lemma_total_insert, lemma_total_le, lemma_total_non_negative,
    lemma_total_single, non_negative, total,
};
use vstd::prelude::*;

verus! {

/// The amounts that a peer's tokens deliver are finitely many, none is
/// negative, and so their sum is not.
pub proof fn lemma_credits<K>(s: Replica<K>, p: Replica<K>)
    requires
        s.wf(),
        p.wf(),
    ensures
        s.credits(p).dom().finite(),
        non_negative(s.credits(p)),
        total(s.credits(p)) >= 0,
{
    vstd::set_lib::lemma_len_subset(s.credits(p).dom(), s.slots.dom());
    lemma_total_non_negative(s.credits(p));
}

/// Filling slots keeps a replica well formed and raises the sum of its
/// vector by exactly what was delivered.
pub proof fn lemma_fill_slots<K>(s: Replica<K>, p: Replica<K>)
    requires
        s.wf(),
        p.wf(),
        s.fill_fits(p),
    ensures
        s.fill_slots(p).wf(),
        total(s.fill_slots(p).vals) == total(s.vals) + total(s.credits(p)),
        s.fill_slots(p).pending() == s.pending() + total(s.credits(p)),
{
    lemma_credits(s, p);
    lemma_total_insert(s.vals, s.id, (s.pending() + total(s.credits(p))) as i64);
    vstd::set_lib::lemma_len_subset(s.fill_slots(p).slots.dom(), s.slots.dom());
}

/// The join of two vectors is finite, without negative values where
/// neither has one, and sums to no less than the first.
pub proof fn lemma_joined<K>(a: Map<K, i64>, b: Map<K, i64>)
    requires
        a.dom().finite(),
        b.dom().finite(),
        non_negative(a),
        non_negative(b),
    ensures
        joined(a, b).dom().finite(),
        non_negative(joined(a, b)),
        total(a) <= total(joined(a, b)),
        joined(joined(a, b), b) == joined(a, b),
{
    assert(joined(a, b).dom() =~= a.dom().union(b.dom()));
    lemma_total_le(a, joined(a, b));
    assert(joined(joined(a, b), b) =~= joined(a, b));
}

/// The first four phases keep a replica well formed, and the sum of its
/// vector does not fall.
pub proof fn lemma_settled<K>(s: Replica<K>, p: Replica<K>)
    requires
        s.wf(),
        p.wf(),
        s.fill_fits(p),
        s.fill_slots(p).discard_slot(p).create_slot_fits(p),
    ensures
        s.fill_slots(p).discard_slot(p).wf(),
        s.fill_slots(p).discard_slot(p).create_slot(p).wf(),
        s.settled(p).wf(),
        total(s.settled(p).vals) >= total(s.vals),
        s.settled(p).val == s.val,
        s.settled(p).below == s.below,
        s.settled(p).tokens == s.tokens,
        s.settled(p).sck == s.sck,
        s.settled(p).id == s.id,
        s.settled(p).tier == s.tier,
{
    lemma_fill_slots(s, p);
    lemma_credits(s, p);
    let c = s.fill_slots(p).discard_slot(p).create_slot(p);
    lemma_joined(c.vals, p.vals);
}

/// A merge keeps a replica well formed.
pub proof fn lemma_merge_wf<K>(s: Replica<K>, p: Replica<K>)
    requires
        s.wf(),
        p.wf(),
        s.merge_fits(p),
    ensures
        s.settled(p).wf(),
        s.settled(p).aggregate(p).wf(),
        s.acknowledged(p).wf(),
        s.acknowledged(p).create_token(p).wf(),
        s.merge(p).wf(),
{
    lemma_settled(s, p);
    let t = s.settled(p);
    lemma_total_non_negative(t.vals);
    let a = t.aggregate(p);
    let d = s.acknowledged(p);
    vstd::set_lib::lemma_len_subset(d.tokens.dom(), a.tokens.dom());
    let c = d.create_token(p);
    let m = s.merge(p);
    if c.tier < p.tier {
        assert(m.tokens.dom() =~= c.tokens.dom().union(
            Set::new(|r: Route<K>| c.relays(p, r)),
        ));
        vstd::set_lib::lemma_len_subset(Set::new(|r: Route<K>| c.relays(p, r)), p.tokens.dom());
    }
}

/// A root reports the sum of its vector after a merge. The one exception
/// is a root that made a token of a pending contribution above zero during
/// the merge: the amount has left the vector and is still counted.
pub proof fn lemma_root_reports_sum<K>(s: Replica<K>, p: Replica<K>)
    requires
        s.wf(),
        p.wf(),
        s.merge_fits(p),
        s.tier == 0,
        !(s.answers(p) && s.settled(p).pending() != 0),
    ensures
        s.merge(p).val == total(s.merge(p).vals),
{
    lemma_merge_wf(s, p);
    let t = s.settled(p);
    lemma_total_non_negative(t.vals);
    let d = s.acknowledged(p);
    if d.answers(p) {
        assert(d.vals.insert(d.id, 0i64) =~= d.vals);
    }
}

/// A new replica reports the sum of its vector, which is zero.
pub proof fn lemma_fresh_reports_sum<K>(id: K, tier: u32, sck: u32, dck: u32)
    ensures
        Replica::fresh(id, tier, sck, dck).wf(),
        Replica::fresh(id, tier, sck, dck).val == total(Replica::fresh(id, tier, sck, dck).vals),
{
    lemma_total_single(id, 0i64);
}

/// A local increment raises the sum of the vector by one, as it does the
/// reported count: a replica that reported the sum before still does.
pub proof fn lemma_inc_keeps_sum<K>(s: Replica<K>)
    requires
        s.wf(),
        s.inc_fits(),
    ensures
        s.inc().wf(),
        total(s.inc().vals) == total(s.vals) + 1,
        s.inc().val == s.val + 1,
{
    lemma_total_insert(s.vals, s.id, (s.pending() + 1) as i64);
}

/// A merge never lowers the reported count. Of a root this asks that it
/// reported no more than its vector sums to once the slots are filled and
/// the vectors joined; `lemma_root_count_within_sum` shows that a root
/// which reported no more than the sum of its vector before is such a root.
pub proof fn lemma_merge_monotone<K>(s: Replica<K>, p: Replica<K>)
    requires
        s.wf(),
        p.wf(),
        s.merge_fits(p),
        s.tier == 0 ==> s.val <= total(s.settled(p).vals),
    ensures
        s.merge(p).val >= s.val,
{
    lemma_merge_wf(s, p);
}

/// The sum of a replica's vector does not fall while slots are filled and
/// vectors joined, so a count that was within the sum before stays within.
pub proof fn lemma_root_count_within_sum<K>(s: Replica<K>, p: Replica<K>)
    requires
        s.wf(),
        p.wf(),
        s.merge_fits(p),
        s.val <= total(s.vals),
    ensures
        s.val <= total(s.settled(p).vals),
{
    lemma_settled(s, p);
}

/// A replica holds one slot per peer at most: a slot that is open is not
/// replaced, and a merge opens no slot but one for the peer.
pub proof fn lemma_one_slot_per_peer<K>(s: Replica<K>, p: Replica<K>)
    requires
        s.wf(),
        p.wf(),
    ensures
        s.slots.contains_key(p.id) ==> s.create_slot(p) == s,
        forall|k: K| #[trigger]
            s.create_slot(p).slots.contains_key(k) ==> s.slots.contains_key(k) || k == p.id,
        forall|k: K| #[trigger]
            s.merge(p).slots.contains_key(k) ==> s.slots.contains_key(k) || k == p.id,
        forall|k: K| #[trigger]
            s.merge(p).slots.contains_key(k) && k != p.id ==> s.merge(p).slots[k] == s.slots[k],
{
}

/// A token is delivered once: after `fill_slots` none of the peer's
/// tokens fills a slot any more, and a second `fill_slots` with the same
/// snapshot changes nothing.
pub proof fn lemma_no_double_delivery<K>(s: Replica<K>, p: Replica<K>)
    requires
        s.wf(),
        p.wf(),
        s.fill_fits(p),
    ensures
        forall|src: K| !s.fill_slots(p).fills(p, src),
        s.fill_slots(p).credits(p) == Map::<K, i64>::empty(),
        s.fill_slots(p).fill_fits(p),
        s.fill_slots(p).fill_slots(p) == s.fill_slots(p),
{
    let t = s.fill_slots(p);
    lemma_fill_slots(s, p);
    assert forall|src: K| !t.fills(p, src) by {
        if t.fills(p, src) {
            assert(s.fills(p, src));
            assert(s.credits(p).dom().contains(src));
        }
    }
    assert(t.credits(p) =~= Map::<K, i64>::empty());
    lemma_total_empty::<K>();
    assert(t.vals.insert(t.id, t.pending()) =~= t.vals);
    assert(t.slots.remove_keys(Set::<K>::empty()) =~= t.slots);
    assert(t.credits(p).dom() =~= Set::<K>::empty());
}

/// The snapshots for which a second merge is a replay of the first. Three
/// kinds are left out, on each of which the second merge does change the
/// state: a peer of the same tier above zero that reports a count or knows
/// of one below, since siblings add their counts on every merge; a root
/// that makes a token of a pending contribution above zero; and a peer
/// that already holds a token with the very clocks of the slot that the
/// merge opens for it.
pub open spec fn replay_safe<K>(s: Replica<K>, p: Replica<K>) -> bool {
    &&& s.tier == p.tier && s.tier > 0 ==> p.val == 0 && s.below == 0 && p.below == 0
    &&& s.tier == 0 ==> !(s.answers(p) && s.settled(p).pending() != 0)
    &&& !(s.fill_slots(p).discard_slot(p).invites(p) && p.tokens.contains_key((p.id, s.id))
        && p.tokens[(p.id, s.id)].0 == (p.sck, s.dck))
}

/// After a merge, the same snapshot fills, discards and opens no slot.
proof fn lemma_replay_slots<K>(s: Replica<K>, p: Replica<K>)
    requires
        s.wf(),
        p.wf(),
        s.merge_fits(p),
        replay_safe(s, p),
    ensures
        s.merge(p).fill_fits(p),
        s.merge(p).fill_slots(p) == s.merge(p),
        s.merge(p).discard_slot(p) == s.merge(p),
        s.merge(p).create_slot(p) == s.merge(p),
{
    lemma_merge_wf(s, p);
    lemma_fill_slots(s, p);
    let m = s.merge(p);
    let f = s.fill_slots(p);
    let d = f.discard_slot(p);
    let c = d.create_slot(p);
    assert(m.slots == c.slots);
    assert(m.id == s.id);
    assert(m.dck == c.dck);
    assert(m.tier == s.tier);
    assert forall|src: K| !m.fills(p, src) by {
        if m.fills(p, src) {
            if d.slots.contains_key(src) {
                assert(f.slots.contains_key(src));
                assert(!s.credits(p).dom().contains(src));
                assert(!s.fills(p, src));
            }
        }
    }
    assert(m.credits(p) =~= Map::<K, i64>::empty());
    lemma_total_empty::<K>();
    assert(m.vals.insert(m.id, m.pending()) =~= m.vals);
    assert(m.credits(p).dom() =~= Set::<K>::empty());
    assert(m.slots.remove_keys(Set::<K>::empty()) =~= m.slots);
}

/// After a merge, the same snapshot changes neither the vector nor the
/// totals.
proof fn lemma_replay_totals<K>(s: Replica<K>, p: Replica<K>)
    requires
        s.wf(),
        p.wf(),
        s.merge_fits(p),
        replay_safe(s, p),
    ensures
        s.merge(p).merge_vectors(p) == s.merge(p),
        s.merge(p).aggregate_fits(p),
        s.merge(p).aggregate(p) == s.merge(p),
{
    lemma_merge_wf(s, p);
    lemma_settled(s, p);
    let m = s.merge(p);
    let c = s.fill_slots(p).discard_slot(p).create_slot(p);
    let v = s.settled(p);
    let k = s.acknowledged(p);
    lemma_total_non_negative(v.vals);
    assert(m.vals == k.create_token(p).vals);
    if s.tier == 0 {
        if k.answers(p) {
            assert(k.vals.insert(k.id, 0i64) =~= k.vals);
        }
        assert(m.vals == v.vals);
        if p.tier == 0 {
            lemma_joined(c.vals, p.vals);
        }
    }
}

/// After a merge, the same snapshot leaves the tokens as they are.
proof fn lemma_replay_tokens<K>(s: Replica<K>, p: Replica<K>)
    requires
        s.wf(),
        p.wf(),
        s.merge_fits(p),
    ensures
        s.merge(p).discard_tokens(p).create_token_fits(p),
        s.merge(p).discard_tokens(p).create_token(p) == s.merge(p).discard_tokens(p),
        s.merge(p).discard_tokens(p).cache_tokens(p) == s.merge(p),
{
    lemma_merge_wf(s, p);
    let m = s.merge(p);
    let k = s.acknowledged(p);
    let t = k.create_token(p);
    let d2 = m.discard_tokens(p);
    assert(forall|r: Route<K>| #[trigger]
        k.tokens.contains_key(r) ==> !Replica::stale(p, r, k.tokens[r]));
    assert forall|r: Route<K>| #[trigger] t.tokens.contains_key(r) implies !Replica::stale(
        p,
        r,
        t.tokens[r],
    ) by {
        if !k.tokens.contains_key(r) || t.tokens[r] != k.tokens[r] {
            assert(r == (k.id, p.id));
        }
    }
    assert(d2.cache_tokens(p).tokens =~= m.tokens);
}

/// Merging the same snapshot twice in a row gives the state that merging
/// it once gives, for every snapshot that is `replay_safe`.
pub proof fn lemma_merge_replay<K>(s: Replica<K>, p: Replica<K>)
    requires
        s.wf(),
        p.wf(),
        s.merge_fits(p),
        replay_safe(s, p),
    ensures
        s.merge(p).merge_fits(p),
        s.merge(p).merge(p) == s.merge(p),
{
    lemma_replay_slots(s, p);
    lemma_replay_totals(s, p);
    lemma_replay_tokens(s, p);
}

} // verus!
