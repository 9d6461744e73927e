use vstd::prelude::*;

use std::collections::HashMap;

use vstd::std_specs::hash::spec_hash_map_iter;
use vstd::std_specs::iter::IteratorSpec;

use crate::meeting::{SuspendReason, Suspended};

verus! {

broadcast use vstd::std_specs::hash::group_hash_axioms;

/// The map that a list of (meeting identifier, suspension) entries stands
/// for: a later entry for a key overrides an earlier one.
pub open spec fn table_view(s: Seq<(u128, Suspended)>) -> Map<u128, Suspended>
    decreases s.len(),
{
    if s.len() == 0 {
        Map::empty()
    } else {
        table_view(s.drop_last()).insert(s.last().0, s.last().1)
    }
}

/// The keys of a list of entries are distinct, as those of a stored map are.
pub open spec fn distinct_keys(es: Seq<(u128, Suspended)>) -> bool {
    forall|i: int, j: int| 0 <= i < j < es.len() ==> #[trigger] es[i].0 != #[trigger] es[j].0
}

/// Which identifiers a list of entries has a key for, and that it has only
/// finitely many.
pub proof fn lemma_table_view_keys(es: Seq<(u128, Suspended)>)
    ensures
        table_view(es).dom().finite(),
        forall|u: u128|
            #[trigger] table_view(es).contains_key(u) <==> exists|i: int|
                0 <= i < es.len() && (#[trigger] es[i]).0 == u,
    decreases es.len(),
{
    if es.len() > 0 {
        let p = es.drop_last();
        lemma_table_view_keys(p);
        assert forall|u: u128| #[trigger] table_view(es).contains_key(u) <==> exists|i: int|
            0 <= i < es.len() && (#[trigger] es[i]).0 == u by {
            if table_view(es).contains_key(u) && u != es.last().0 {
                let i = choose|i: int| 0 <= i < p.len() && (#[trigger] p[i]).0 == u;
                assert(es[i] == p[i]);
            }
            if exists|i: int| 0 <= i < es.len() && (#[trigger] es[i]).0 == u {
                let i = choose|i: int| 0 <= i < es.len() && (#[trigger] es[i]).0 == u;
                if i < p.len() {
                    assert(p[i] == es[i]);
                } else {
                    assert(es.last().0 == u);
                }
            }
        }
    }
}

/// Entries that each hold a key of `m` with its value stand for the part of
/// `m` on their keys.
proof fn lemma_table_view_within(es: Seq<(u128, Suspended)>, m: Map<u128, Suspended>)
    requires
        forall|i: int| 0 <= i < es.len() ==> m.contains_key((#[trigger] es[i]).0) && m[es[i].0] == es[i].1,
    ensures
        forall|u: u128| #[trigger] table_view(es).contains_key(u) ==> m.contains_key(u) && table_view(es)[u] == m[u],
    decreases es.len(),
{
    if es.len() > 0 {
        let p = es.drop_last();
        assert forall|i: int| 0 <= i < p.len() implies m.contains_key((#[trigger] p[i]).0) && m[p[i].0] == p[i].1 by {
            assert(p[i] == es[i]);
        }
        lemma_table_view_within(p, m);
        let k = es.last().0;
        assert(m.contains_key(es[es.len() - 1].0));
        assert forall|u: u128| #[trigger] table_view(es).contains_key(u) implies m.contains_key(u)
            && table_view(es)[u] == m[u] by {
            if u != k {
                assert(table_view(p).contains_key(u));
            }
        }
    }
}

/// The suspensions in force, keyed by meeting identifier.
pub struct SuspensionTable {
    map: HashMap<u128, Suspended>,
}

impl View for SuspensionTable {
    type V = Map<u128, Suspended>;

    closed spec fn view(&self) -> Map<u128, Suspended> {
        self.map@
    }
}

impl SuspensionTable {
    /// No suspension at all.
    pub fn new() -> (r: SuspensionTable)
        ensures
            r@ == Map::<u128, Suspended>::empty(),
    {
        SuspensionTable { map: HashMap::new() }
    }

    /// The suspension of a meeting, if there is one.
    pub fn get(&self, key: u128) -> (r: Option<Suspended>)
        ensures
            r == self@.get(key),
    {
        match self.map.get(&key) {
            Some(s) => Some(*s),
            None => None,
        }
    }

    /// Whether a meeting is suspended.
    pub fn contains_key(&self, key: u128) -> (r: bool)
        ensures
            r == self@.contains_key(key),
    {
        self.map.contains_key(&key)
    }

    /// Whether a meeting is called off.
    pub fn is_cancelled(&self, key: u128) -> (r: bool)
        ensures
            r == cancelled_in(self@, key),
    {
        match self.get(key) {
            Some(s) => s.reason == SuspendReason::Cancelled,
            None => false,
        }
    }

    /// Drops the suspension of a meeting, if any.
    pub fn remove(&mut self, key: u128)
        ensures
            final(self)@ == old(self)@.remove(key),
    {
        self.map.remove(&key);
    }

    /// Sets the suspension of a meeting, replacing any earlier one.
    pub fn insert(&mut self, key: u128, value: Suspended)
        ensures
            final(self)@ == old(self)@.insert(key, value),
    {
        self.map.insert(key, value);
    }

    /// The entries, one per suspended meeting, for saving (in the order the
    /// map is walked, which differs from run to run).
    pub fn to_vec(&self) -> (r: Vec<(u128, Suspended)>)
        ensures
            table_view(r@) == self@,
            distinct_keys(r@),
    {
        let ghost m = self.map@;
        let ghost all = spec_hash_map_iter(&self.map).remaining();
        let mut out: Vec<(u128, Suspended)> = Vec::new();
        for e in it: self.map.iter()
            invariant
                m == self.map@,
                all == spec_hash_map_iter(&self.map).remaining(),
                it.seq() == all,
                out@.len() == it.index(),
                forall|i: int|
                    0 <= i < out@.len() ==> (#[trigger] out@[i]).0 == *all[i].0 && out@[i].1
                        == *all[i].1,
        {
            out.push((*e.0, *e.1));
        }
        proof {
            assert(out@.len() == all.len());
            lemma_table_view_keys(out@);
            lemma_table_view_within(out@, m);
            assert forall|u: u128| #[trigger] m.contains_key(u) implies table_view(out@).contains_key(u) by {
                assert(all.contains((&u, &m[u])));
                let i = choose|i: int| 0 <= i < all.len() && all[i] == (&u, &m[u]);
                assert(out@[i].0 == u);
            }
            assert(table_view(out@) =~= m);
            let keys = out@.map_values(|e: (u128, Suspended)| e.0);
            assert(keys.to_set() =~= m.dom()) by {
                assert forall|u: u128| keys.to_set().contains(u) implies m.dom().contains(u) by {
                    let i = choose|i: int| 0 <= i < keys.len() && keys[i] == u;
                    assert(out@[i].0 == u);
                }
                assert forall|u: u128| m.dom().contains(u) implies keys.to_set().contains(u) by {
                    assert(all.contains((&u, &m[u])));
                    let i = choose|i: int| 0 <= i < all.len() && all[i] == (&u, &m[u]);
                    assert(keys[i] == u);
                }
            }
            keys.lemma_no_dup_set_cardinality();
            assert forall|i: int, j: int| 0 <= i < j < out@.len() implies #[trigger] out@[i].0
                != #[trigger] out@[j].0 by {
                assert(keys[i] == out@[i].0 && keys[j] == out@[j].0);
            }
        }
        out
    }
}

/// Whether a suspension has lapsed at Unix time `now`: it has a restore time
/// (not -1) and that time has passed.
pub open spec fn suspension_done(reset_timestamp: i64, now: i64) -> bool {
    reset_timestamp != -1 && now > reset_timestamp
}

/// Whether a suspension with restore time `reset_timestamp` has lapsed at
/// Unix time `now`.
pub fn is_suspension_done(reset_timestamp: i64, now: i64) -> (r: bool)
    ensures
        r == suspension_done(reset_timestamp, now),
{
    reset_timestamp != -1 && now > reset_timestamp
}

/// A suspension without a restore time never lapses.
pub proof fn lemma_no_restore_time_never_done(now: i64)
    ensures
        !suspension_done(-1i64, now),
{
}

/// The suspension recorded when a meeting has been announced.
pub open spec fn announced_until(t: i64) -> Suspended {
    Suspended { reason: SuspendReason::AlreadyAnnounced, reschedule: t }
}

/// A meeting is called off in a suspension map.
pub open spec fn cancelled_in(sus: Map<u128, Suspended>, u: u128) -> bool {
    match sus.get(u) {
        Some(s) => s.reason == SuspendReason::Cancelled,
        None => false,
    }
}

/// The restore time of a meeting in a suspension map, or -1 when it has no
/// suspension.
pub open spec fn restore_time_in(sus: Map<u128, Suspended>, u: u128) -> i64 {
    match sus.get(u) {
        Some(s) => s.reschedule,
        None => -1i64,
    }
}

/// The suspension recorded when a meeting is called off.
pub open spec fn cancelled_until(t: i64) -> Suspended {
    Suspended { reason: SuspendReason::Cancelled, reschedule: t }
}

} // verus!
