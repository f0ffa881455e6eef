//! The replica itself: its state, the local operations, and the merge with
//! its phases, each proved to compute the function of the same name in
//! `model`.
use crate::model::{joined, Clocks, Replica, Route, Token};
use crate::sums::{
    keys_before, lemma_total_empty, lemma_total_insert, lemma_total_le, lemma_total_non_negative,
    non_negative, sum_values, total,
};
use crate::tokens::{
    at, find, key_model, lemma_table_at, lemma_table_finite, lemma_table_push, put, same, table,
    unique,
};
use std::collections::HashMap;
use std::hash::Hash;
use vstd::pervasive::unreached;
use vstd::prelude::*;
use vstd::std_specs::hash::obeys_key_model;

verus! {

/// One replica of the counter.
#[derive(Debug)]
pub struct Handoff<K> where K: Clone + Eq + Hash + Copy {
    id: K,
    tier: u32,
    val: i64,
    below: i64,
    vals: HashMap<K, i64>,
    sck: u32,
    dck: u32,
    slots: HashMap<K, Clocks>,
    tokens: Vec<(Route<K>, Token)>,
}

impl<K> View for Handoff<K> where K: Clone + Eq + Hash + Copy {
    type V = Replica<K>;

    closed spec fn view(&self) -> Replica<K> {
        Replica {
            id: self.id,
            tier: self.tier,
            val: self.val,
            below: self.below,
            vals: self.vals@,
            sck: self.sck,
            dck: self.dck,
            slots: self.slots@,
            tokens: table(self.tokens@),
        }
    }
}

impl<K> Clone for Handoff<K> where K: Clone + Eq + Hash + Copy {
    /// A snapshot: a second replica in the same state.
    fn clone(&self) -> (r: Self)
        ensures
            r@ == self@,
            self.wf() ==> r.wf(),
    {
        let mut tokens: Vec<(Route<K>, Token)> = Vec::new();
        let mut i: usize = 0;
        while i < self.tokens.len()
            invariant
                i <= self.tokens.len(),
                tokens@ == self.tokens@.take(i as int),
            decreases self.tokens.len() - i,
        {
            tokens.push(self.tokens[i]);
            proof {
                assert(self.tokens@.take(i + 1) =~= self.tokens@.take(i as int).push(
                    self.tokens@[i as int],
                ));
            }
            i = i + 1;
        }
        proof {
            assert(self.tokens@.take(self.tokens@.len() as int) =~= self.tokens@);
        }
        Handoff {
            id: self.id,
            tier: self.tier,
            val: self.val,
            below: self.below,
            vals: self.vals.clone(),
            sck: self.sck,
            dck: self.dck,
            slots: self.slots.clone(),
            tokens,
        }
    }
}

impl<K> Handoff<K> where K: Clone + Eq + Hash + Copy {
    /// No route occurs twice among the tokens held.
    pub closed spec fn routes_unique(&self) -> bool {
        unique(self.tokens@)
    }

    /// The replica is well formed: its identifier type is a sound hash key,
    /// it holds one token per route at most, and its state is well formed.
    pub open spec fn wf(&self) -> bool {
        &&& key_model::<K>()
        &&& self.routes_unique()
        &&& self@.wf()
    }

    /// A replica that has counted nothing, with the given clocks or zero.
    pub fn new(id: K, tier: u32, sck: Option<u32>, dck: Option<u32>) -> (r: Self)
        requires
            key_model::<K>(),
        ensures
            r.wf(),
            r@ == Replica::fresh(
                id,
                tier,
                if sck is Some { sck->0 } else { 0 },
                if dck is Some { dck->0 } else { 0 },
            ),
    {
        let mut vals: HashMap<K, i64> = HashMap::new();
        vals.insert(id, 0);
        let sck: u32 = match sck {
            Some(c) => c,
            None => 0,
        };
        let dck: u32 = match dck {
            Some(c) => c,
            None => 0,
        };
        let r = Handoff {
            id,
            tier,
            val: 0,
            below: 0,
            vals,
            sck,
            dck,
            slots: HashMap::new(),
            tokens: Vec::new(),
        };
        proof {
            assert(table(r.tokens@) =~= Map::empty());
        }
        r
    }

    /// Sets the reported count and `below`, as when a replica is restored
    /// from what was stored of it.
    pub fn restore_totals(&mut self, val: i64, below: i64)
        requires
            old(self).wf(),
            val >= 0,
            below >= 0,
        ensures
            final(self).wf(),
            final(self)@ == (Replica { val, below, ..old(self)@ }),
    {
        self.val = val;
        self.below = below;
    }

    /// The count this replica reports.
    pub fn fetch(&self) -> (r: i64)
        ensures
            r == self@.val,
    {
        self.val
    }

    /// Counts one more: the reported count and the pending contribution
    /// both grow by one.
    pub fn inc(&mut self)
        requires
            old(self).wf(),
            old(self)@.inc_fits(),
        ensures
            final(self).wf(),
            final(self)@ == old(self)@.inc(),
    {
        let own: i64 = self.get_self_vals();
        self.val = self.val + 1;
        self.vals.insert(self.id, own + 1);
    }

    /// Takes delivery of the peer's tokens for this replica: each one that
    /// answers an open slot for its source, clock for clock, closes that
    /// slot and adds its amount to the pending contribution.
    pub fn fill_slots(&mut self, h: &Self)
        requires
            old(self).wf(),
            h.wf(),
            old(self)@.fill_fits(h@),
        ensures
            final(self).wf(),
            final(self)@ == old(self)@.fill_slots(h@),
    {
        let ghost start = self@;
        let own: i64 = self.get_self_vals();
        let mut gained: i64 = 0;
        let mut i: usize = 0;
        proof {
            lemma_credits_finite(start, h@, h.tokens@, 0);
            assert(credits_before(start, h@, h.tokens@, 0) =~= Map::<K, i64>::empty());
            lemma_total_empty::<K>();
            assert(self.slots@ =~= start.slots.remove_keys(Set::<K>::empty()));
            assert(credits_before(start, h@, h.tokens@, 0).dom() =~= Set::<K>::empty());
        }
        while i < h.tokens.len()
            invariant
                key_model::<K>(),
                h.wf(),
                start.wf(),
                start.fill_fits(h@),
                start == old(self)@,
                own == start.pending(),
                i <= h.tokens.len(),
                self.slots@ == start.slots.remove_keys(
                    credits_before(start, h@, h.tokens@, i as int).dom(),
                ),
                gained == total(credits_before(start, h@, h.tokens@, i as int)),
                self.id == old(self).id,
                self.tier == old(self).tier,
                self.val == old(self).val,
                self.below == old(self).below,
                self.vals == old(self).vals,
                self.sck == old(self).sck,
                self.dck == old(self).dck,
                self.tokens == old(self).tokens,
            decreases h.tokens.len() - i,
        {
            let entry: (Route<K>, Token) = h.tokens[i];
            let src: K = entry.0.0;
            let token: Token = entry.1;
            let ghost before = credits_before(start, h@, h.tokens@, i as int);
            let ghost after = credits_before(start, h@, h.tokens@, i + 1);
            proof {
                lemma_table_at(h.tokens@, i as int);
                lemma_credits_finite(start, h@, h.tokens@, i as int);
                lemma_credits_finite(start, h@, h.tokens@, i + 1);
                lemma_credits_finite(start, h@, h.tokens@, h.tokens@.len() as int);
                lemma_credits_all(start, h@, h.tokens@);
                assert(!before.contains_key(src) || entry.0.1 != self.id) by {
                    if before.contains_key(src) && entry.0.1 == self.id {
                        let j = choose|j: int|
                            0 <= j < i && (#[trigger] h.tokens@[j]).0 == (src, start.id);
                        assert(h.tokens@[j].0 == h.tokens@[i as int].0);
                    }
                }
                assert(forall|q: K|
                    after.contains_key(q) ==> start.credits(h@).contains_key(q) && after[q]
                        == start.credits(h@)[q]);
                lemma_total_le(after, start.credits(h@));
                lemma_total_non_negative(after);
            }
            let mut filled: bool = false;
            if same(entry.0.1, self.id) {
                match self.slots.get(&src) {
                    Some(clocks) => {
                        if clocks.0 == token.0.0 && clocks.1 == token.0.1 {
                            filled = true;
                        }
                    },
                    None => {},
                }
            }
            if filled {
                proof {
                    assert(start.fills(h@, src));
                    assert(after =~= before.insert(src, token.1));
                    lemma_total_insert(before, src, token.1);
                    assert(self.slots@.remove(src) =~= start.slots.remove_keys(after.dom()));
                }
                gained = gained + token.1;
                self.slots.remove(&src);
            } else {
                proof {
                    assert(after =~= before);
                }
            }
            i = i + 1;
        }
        proof {
            lemma_credits_all(start, h@, h.tokens@);
            lemma_credits_finite(start, h@, h.tokens@, 0);
            lemma_total_non_negative(start.credits(h@));
        }
        self.vals.insert(self.id, own + gained);
    }

    /// Opens a slot for the peer where this replica invites it, and ticks
    /// the destination clock.
    pub fn create_slot(&mut self, h: &Self)
        requires
            old(self).wf(),
            h.wf(),
            old(self)@.create_slot_fits(h@),
        ensures
            final(self).wf(),
            final(self)@ == old(self)@.create_slot(h@),
    {
        if self.tier < h.tier && h.get_self_vals() > 0 && !self.slots.contains_key(&h.id) {
            self.slots.insert(h.id, (h.sck, self.dck));
            self.dck = self.dck + 1;
        }
    }

    /// Closes the slot for the peer where the peer's source clock has
    /// passed the one the slot records.
    fn discard_slot(&mut self, h: &Self)
        requires
            old(self).wf(),
            h.wf(),
        ensures
            final(self).wf(),
            final(self)@ == old(self)@.discard_slot(h@),
    {
        let outdated: bool = match self.slots.get(&h.id) {
            Some(clocks) => h.sck > clocks.0,
            None => false,
        };
        if outdated {
            self.slots.remove(&h.id);
        }
    }

    /// Answers the peer's slot for this replica, if it records the current
    /// source clock: the pending contribution moves into a token for the
    /// peer, and the source clock ticks.
    pub fn create_token(&mut self, h: &Self)
        requires
            old(self).wf(),
            h.wf(),
            old(self)@.create_token_fits(h@),
        ensures
            final(self).wf(),
            final(self)@ == old(self)@.create_token(h@),
    {
        let invitation: Option<Clocks> = match h.slots.get(&self.id) {
            Some(clocks) => Some(*clocks),
            None => None,
        };
        if let Some(clocks) = invitation {
            if clocks.0 == self.sck {
                let amount: i64 = self.get_self_vals();
                put(&mut self.tokens, (self.id, h.id), (clocks, amount));
                self.vals.insert(self.id, 0);
                self.sck = self.sck + 1;
            }
        }
    }

    /// Raises `below` to what a peer of the same tier knows, or to what a
    /// peer of a lower tier reports.
    fn update_below(&mut self, h: &Self)
        requires
            old(self).wf(),
            h.wf(),
        ensures
            final(self).wf(),
            final(self)@ == old(self)@.update_below(h@),
    {
        if self.tier == h.tier {
            if h.below > self.below {
                self.below = h.below;
            }
        } else if self.tier > h.tier {
            if h.val > self.below {
                self.below = h.val;
            }
        }
    }

    /// Recomputes the reported count: at a root the sum of the vector of
    /// contributions; beside a peer of the same tier the largest of both
    /// counts and of their sum with `below`; otherwise the larger of the
    /// count and of `below` with the pending contribution.
    fn update_val(&mut self, h: &Self)
        requires
            old(self).wf(),
            h.wf(),
            old(self)@.update_val_fits(h@),
        ensures
            final(self).wf(),
            final(self)@ == old(self)@.update_val(h@),
    {
        if self.tier == 0 {
            proof {
                lemma_total_non_negative(self.vals@);
            }
            self.val = sum_values(&self.vals);
        } else if self.tier == h.tier {
            let both: i64 = self.below + self.val + h.val;
            let mut best: i64 = self.val;
            if h.val > best {
                best = h.val;
            }
            if both > best {
                best = both;
            }
            self.val = best;
        } else {
            let own: i64 = self.below + self.get_self_vals();
            if own > self.val {
                self.val = own;
            }
        }
    }

    /// Brings `below` and the reported count up to date with the peer.
    fn aggregate(&mut self, h: &Self)
        requires
            old(self).wf(),
            h.wf(),
            old(self)@.aggregate_fits(h@),
        ensures
            final(self).wf(),
            final(self)@ == old(self)@.aggregate(h@),
    {
        self.update_below(h);
        self.update_val(h);
    }

    /// Joins the peer's vector of contributions into this replica's, where
    /// both are roots.
    fn merge_vectors(&mut self, h: &Self)
        requires
            old(self).wf(),
            h.wf(),
        ensures
            final(self).wf(),
            final(self)@ == old(self)@.merge_vectors(h@),
    {
        if self.tier != 0 || h.tier != 0 {
            return;
        }
        join_vectors(&mut self.vals, &h.vals);
    }

    /// Drops the tokens for the peer that the peer's state shows to be
    /// stale.
    pub fn discard_tokens(&mut self, h: &Self)
        requires
            old(self).wf(),
            h.wf(),
        ensures
            final(self).wf(),
            final(self)@ == old(self)@.discard_tokens(h@),
    {
        let ghost list = self.tokens@;
        let mut kept: Vec<(Route<K>, Token)> = Vec::new();
        let mut i: usize = 0;
        proof {
            assert(table(kept@) =~= kept_before(h@, list, 0));
        }
        while i < self.tokens.len()
            invariant
                key_model::<K>(),
                h.wf(),
                list == self.tokens@,
                *self == *old(self),
                unique(list),
                i <= list.len(),
                unique(kept@),
                table(kept@) == kept_before(h@, list, i as int),
            decreases self.tokens.len() - i,
        {
            let entry: (Route<K>, Token) = self.tokens[i];
            let mut stale: bool = false;
            if same(entry.0.1, h.id) {
                stale = match h.slots.get(&entry.0.0) {
                    Some(clocks) => clocks.1 > entry.1.0.1,
                    None => h.dck > entry.1.0.1,
                };
            }
            proof {
                lemma_table_at(list, i as int);
                assert(stale == Replica::stale(h@, entry.0, entry.1));
                assert(!kept_before(h@, list, i as int).contains_key(entry.0)) by {
                    if kept_before(h@, list, i as int).contains_key(entry.0) {
                        let j = choose|j: int|
                            0 <= j < i && (#[trigger] list[j]).0 == entry.0 && !Replica::stale(
                                h@,
                                entry.0,
                                list[j].1,
                            );
                        assert(list[j].0 == list[i as int].0);
                    }
                }
            }
            if !stale {
                proof {
                    lemma_table_push(kept@, entry.0, entry.1);
                    assert(kept_before(h@, list, i + 1) =~= kept_before(h@, list, i as int).insert(
                        entry.0,
                        entry.1,
                    ));
                }
                kept.push(entry);
            } else {
                proof {
                    assert(kept_before(h@, list, i + 1) =~= kept_before(h@, list, i as int));
                }
            }
            i = i + 1;
        }
        proof {
            lemma_table_finite(kept@);
            assert forall|r: Route<K>| #[trigger]
                kept_before(h@, list, list.len() as int).contains_key(r) <==> (table(
                    list,
                ).contains_key(r) && !Replica::stale(h@, r, table(list)[r])) by {
                if table(list).contains_key(r) {
                    let j = choose|j: int| at(list, r, j);
                    lemma_table_at(list, j);
                    assert(list[j].0 == r);
                }
                if kept_before(h@, list, list.len() as int).contains_key(r) {
                    let j = choose|j: int|
                        0 <= j < list.len() && (#[trigger] list[j]).0 == r && !Replica::stale(
                            h@,
                            r,
                            list[j].1,
                        );
                    lemma_table_at(list, j);
                }
            }
            assert(table(kept@) =~= old(self)@.discard_tokens(h@).tokens);
        }
        self.tokens = kept;
    }

    /// Takes over the peer's own tokens for third replicas, where the peer
    /// is of a higher tier: each one that is not held here yet, or whose
    /// source clock is no earlier than that of the copy held here.
    fn cache_tokens(&mut self, h: &Self)
        requires
            old(self).wf(),
            h.wf(),
        ensures
            final(self).wf(),
            final(self)@ == old(self)@.cache_tokens(h@),
    {
        if self.tier >= h.tier {
            return;
        }
        let ghost start = self@;
        let ghost list = h.tokens@;
        let mut i: usize = 0;
        proof {
            assert(table(self.tokens@) =~= cached_before(start, h@, list, 0));
        }
        while i < h.tokens.len()
            invariant
                key_model::<K>(),
                h.wf(),
                list == h.tokens@,
                start == old(self)@,
                start.wf(),
                i <= list.len(),
                unique(self.tokens@),
                table(self.tokens@) == cached_before(start, h@, list, i as int),
                self.id == old(self).id,
                self.tier == old(self).tier,
                self.val == old(self).val,
                self.below == old(self).below,
                self.vals == old(self).vals,
                self.sck == old(self).sck,
                self.dck == old(self).dck,
                self.slots == old(self).slots,
            decreases h.tokens.len() - i,
        {
            let entry: (Route<K>, Token) = h.tokens[i];
            let ghost before = cached_before(start, h@, list, i as int);
            let ghost after = cached_before(start, h@, list, i + 1);
            proof {
                lemma_table_at(list, i as int);
                assert(before.contains_key(entry.0) == start.tokens.contains_key(entry.0)
                    && (before.contains_key(entry.0) ==> before[entry.0]
                    == start.tokens[entry.0])) by {
                    if exists|j: int| 0 <= j < i && (#[trigger] list[j]).0 == entry.0 {
                        let j = choose|j: int| 0 <= j < i && (#[trigger] list[j]).0 == entry.0;
                        assert(list[j].0 == list[i as int].0);
                    }
                }
            }
            let mut taken: bool = false;
            if same(entry.0.0, h.id) && !same(entry.0.1, self.id) {
                taken = match find(&self.tokens, entry.0) {
                    Some(j) => {
                        proof {
                            lemma_table_at(self.tokens@, j as int);
                        }
                        entry.1.0.0 >= self.tokens[j].1.0.0
                    },
                    None => true,
                };
            }
            proof {
                assert(taken == start.relays(h@, entry.0));
            }
            if taken {
                proof {
                    assert(after =~= before.insert(entry.0, entry.1));
                }
                put(&mut self.tokens, entry.0, entry.1);
            } else {
                proof {
                    assert(after =~= before);
                }
            }
            i = i + 1;
        }
        proof {
            lemma_table_finite(self.tokens@);
            assert forall|r: Route<K>| start.relays(h@, r) implies exists|j: int|
                0 <= j < list.len() && (#[trigger] list[j]).0 == r by {
                let j = choose|j: int| at(list, r, j);
                assert(list[j].0 == r);
            }
            assert(cached_before(start, h@, list, list.len() as int) =~= start.cache_tokens(
                h@,
            ).tokens);
        }
    }

    /// Absorbs a snapshot of the peer: the eight phases in their order.
    pub fn merge(&mut self, h: &Self)
        requires
            old(self).wf(),
            h.wf(),
            old(self)@.merge_fits(h@),
        ensures
            final(self).wf(),
            final(self)@ == old(self)@.merge(h@),
    {
        self.fill_slots(h);
        self.discard_slot(h);
        self.create_slot(h);
        self.merge_vectors(h);
        self.aggregate(h);
        self.discard_tokens(h);
        self.create_token(h);
        self.cache_tokens(h);
    }

    /// The source clock.
    pub fn get_sck(&self) -> (r: u32)
        ensures
            r == self@.sck,
    {
        self.sck
    }

    /// The destination clock.
    pub fn get_dck(&self) -> (r: u32)
        ensures
            r == self@.dck,
    {
        self.dck
    }

    /// A copy of the open slots.
    pub fn get_slots(&self) -> (r: HashMap<K, Clocks>)
        ensures
            r@ == self@.slots,
    {
        self.slots.clone()
    }

    /// A copy of the tokens held, as a map from route to token. The map is
    /// the one of the view wherever a pair of identifiers is a sound hash
    /// key.
    pub fn get_tokens(&self) -> (r: HashMap<Route<K>, Token>)
        requires
            self.wf(),
        ensures
            obeys_key_model::<Route<K>>() ==> r@ == self@.tokens,
    {
        let mut r: HashMap<Route<K>, Token> = HashMap::new();
        let mut i: usize = 0;
        proof {
            assert(table(self.tokens@.take(0)) =~= Map::empty());
        }
        while i < self.tokens.len()
            invariant
                i <= self.tokens.len(),
                unique(self.tokens@),
                obeys_key_model::<Route<K>>() ==> r@ == table(self.tokens@.take(i as int)),
            decreases self.tokens.len() - i,
        {
            let entry: (Route<K>, Token) = self.tokens[i];
            proof {
                let seen = self.tokens@.take(i as int);
                assert(self.tokens@.take(i + 1) =~= seen.push(entry));
                assert(!table(seen).contains_key(entry.0)) by {
                    if table(seen).contains_key(entry.0) {
                        let j = choose|j: int| at(seen, entry.0, j);
                        assert(self.tokens@[j].0 == self.tokens@[i as int].0);
                    }
                }
                lemma_table_push(seen, entry.0, entry.1);
            }
            r.insert(entry.0, entry.1);
            i = i + 1;
        }
        proof {
            assert(self.tokens@.take(self.tokens@.len() as int) =~= self.tokens@);
        }
        r
    }

    /// The pending contribution: what this replica has counted and not yet
    /// handed off.
    pub fn get_self_vals(&self) -> (r: i64)
        requires
            self.wf(),
        ensures
            r == self@.pending(),
    {
        match self.vals.get(&self.id) {
            Some(v) => *v,
            None => unreached(),
        }
    }
}

/// Raises each entry of `mine` to the peer's where the peer's is larger,
/// and takes over the entries that only the peer has.
fn join_vectors<K: Copy + Eq + Hash>(mine: &mut HashMap<K, i64>, theirs: &HashMap<K, i64>)
    requires
        key_model::<K>(),
    ensures
        final(mine)@ == joined(old(mine)@, theirs@),
{
    proof {
        assert forall|list: Seq<(&K, &i64)>|
            joined(mine@, #[trigger] theirs@.restrict(keys_before(list, 0))) == mine@ by {
            assert(joined(mine@, theirs@.restrict(keys_before(list, 0))) =~= mine@);
        }
    }
    for entry in it: theirs.iter()
        invariant
            key_model::<K>(),
            it.seq().no_duplicates(),
            forall|j: int|
                0 <= j < it.seq().len() ==> theirs@.contains_key(*(#[trigger] it.seq()[j]).0)
                    && theirs@[*it.seq()[j].0] == *it.seq()[j].1,
            forall|k: K| #[trigger]
                theirs@.contains_key(k) ==> it.seq().contains((&k, &theirs@[k])),
            mine@ == joined(old(mine)@, theirs@.restrict(keys_before(it.seq(), it.index()))),
            it.index() == it.seq().len() ==> theirs@.restrict(
                keys_before(it.seq(), it.index()),
            ) == theirs@,
    {
        let k: K = *entry.0;
        let v: i64 = *entry.1;
        let known: Option<i64> = match mine.get(&k) {
            Some(c) => Some(*c),
            None => None,
        };
        let raised: i64 = match known {
            Some(c) => if c >= v {
                c
            } else {
                v
            },
            None => v,
        };
        proof {
            let i = it.index();
            let list = it.seq();
            let before = theirs@.restrict(keys_before(list, i));
            let after = theirs@.restrict(keys_before(list, i + 1));
            assert(!before.contains_key(k)) by {
                if before.contains_key(k) {
                    let j = choose|j: int| 0 <= j < i && *(#[trigger] list[j]).0 == k;
                    assert(list[j] == list[i]);
                }
            }
            assert(after =~= before.insert(k, v));
            assert(joined(old(mine)@, after) =~= mine@.insert(k, raised));
            assert forall|q: K| i + 1 == list.len() && theirs@.contains_key(q) implies #[trigger]
                after.contains_key(q) by {
                let j = list.index_of((&q, &theirs@[q]));
                assert(*list[j].0 == q);
            }
            assert(i + 1 == list.len() ==> after =~= theirs@);
        }
        mine.insert(k, raised);
    }
}

/// The amounts delivered by the first `n` tokens of the peer's list.
spec fn credits_before<K>(
    s: Replica<K>,
    p: Replica<K>,
    list: Seq<(Route<K>, Token)>,
    n: int,
) -> Map<K, i64> {
    Map::new(
        |src: K|
            s.fills(p, src) && exists|j: int|
                0 <= j < n && (#[trigger] list[j]).0 == (src, s.id),
        |src: K| p.tokens[(src, s.id)].1,
    )
}

/// Only open slots are credited, so the credits are finitely many.
proof fn lemma_credits_finite<K>(
    s: Replica<K>,
    p: Replica<K>,
    list: Seq<(Route<K>, Token)>,
    n: int,
)
    requires
        s.wf(),
    ensures
        credits_before(s, p, list, n).dom().finite(),
        s.credits(p).dom().finite(),
{
    vstd::set_lib::lemma_len_subset(credits_before(s, p, list, n).dom(), s.slots.dom());
    vstd::set_lib::lemma_len_subset(s.credits(p).dom(), s.slots.dom());
}

/// The whole list delivers all there is to deliver, and no amount is
/// negative.
proof fn lemma_credits_all<K>(s: Replica<K>, p: Replica<K>, list: Seq<(Route<K>, Token)>)
    requires
        p.wf(),
        p.tokens == table(list),
    ensures
        credits_before(s, p, list, list.len() as int) == s.credits(p),
        non_negative(s.credits(p)),
{
    assert forall|src: K| s.fills(p, src) implies exists|j: int|
        0 <= j < list.len() && (#[trigger] list[j]).0 == (src, s.id) by {
        let j = choose|j: int| at(list, (src, s.id), j);
        assert(list[j].0 == (src, s.id));
    }
    assert(credits_before(s, p, list, list.len() as int) =~= s.credits(p));
}

/// What is left of the first `n` tokens of `list` once the stale ones are
/// dropped.
spec fn kept_before<K>(p: Replica<K>, list: Seq<(Route<K>, Token)>, n: int) -> Map<
    Route<K>,
    Token,
> {
    Map::new(
        |r: Route<K>|
            exists|j: int|
                0 <= j < n && (#[trigger] list[j]).0 == r && !Replica::stale(p, r, list[j].1),
        |r: Route<K>| table(list)[r],
    )
}

/// The tokens held once the first `n` tokens of the peer's list have been
/// looked at.
spec fn cached_before<K>(
    s: Replica<K>,
    p: Replica<K>,
    list: Seq<(Route<K>, Token)>,
    n: int,
) -> Map<Route<K>, Token> {
    Map::new(
        |r: Route<K>|
            s.tokens.contains_key(r) || (s.relays(p, r) && exists|j: int|
                0 <= j < n && (#[trigger] list[j]).0 == r),
        |r: Route<K>|
            if s.relays(p, r) && exists|j: int| 0 <= j < n && (#[trigger] list[j]).0 == r {
                p.tokens[r]
            } else {
                s.tokens[r]
            },
    )
}

} // verus!
