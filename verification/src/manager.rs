use vstd::multiset::Multiset;
use vstd::prelude::*;

use crate::meeting::{
    next_occurrence, same_meeting, seconds_until, valid_clock, MeetingView, Moment,
    ScheduledMeeting, SchedulingError, SuspendReason, Suspended,
};
use crate::suspension::{
    announced_until, cancelled_in, cancelled_until, is_suspension_done, restore_time_in,
    suspension_done, table_view, distinct_keys, lemma_table_view_keys, SuspensionTable,
};
use crate::weekday::{day_at, day_index, Weekday};

verus! {

/// The views of a list of meetings.
pub open spec fn view_meetings(v: Seq<ScheduledMeeting>) -> Seq<MeetingView> {
    v.map_values(|m: ScheduledMeeting| m@)
}

/// The mathematical value of the schedule manager: the meetings in schedule
/// order and the suspensions in force.
pub struct ManagerView {
    pub schedule: Seq<MeetingView>,
    pub suspended: Map<u128, Suspended>,
}

/// The manager after suspension `s` is recorded for meeting `u`, replacing
/// any it had.
pub open spec fn with_suspension(v: ManagerView, u: u128, s: Suspended) -> ManagerView {
    ManagerView { schedule: v.schedule, suspended: v.suspended.insert(u, s) }
}

/// The manager after the suspension of meeting `u`, if any, is lifted.
pub open spec fn without_suspension(v: ManagerView, u: u128) -> ManagerView {
    ManagerView { schedule: v.schedule, suspended: v.suspended.remove(u) }
}

/// A meeting falls in the slot given by day, start, end and one-time flag.
pub open spec fn in_slot(m: MeetingView, day: Weekday, start: (u32, u32), end: (u32, u32), onetime: bool) -> bool {
    m.day == day && m.start == start && m.end == end && m.onetime == onetime
}

/// The positions, in increasing order, of the meetings that fall in a slot.
pub open spec fn slot_indices(
    s: Seq<MeetingView>,
    day: Weekday,
    start: (u32, u32),
    end: (u32, u32),
    onetime: bool,
) -> Seq<int>
    decreases s.len(),
{
    if s.len() == 0 {
        Seq::<int>::empty()
    } else {
        let p = slot_indices(s.drop_last(), day, start, end, onetime);
        if in_slot(s.last(), day, start, end, onetime) {
            p.push(s.len() - 1)
        } else {
            p
        }
    }
}

/// The identifiers of the meetings that fall in a slot.
pub open spec fn slot_ids(
    s: Seq<MeetingView>,
    day: Weekday,
    start: (u32, u32),
    end: (u32, u32),
    onetime: bool,
) -> Set<u128> {
    Set::new(
        |u: u128|
            exists|i: int|
                0 <= i < s.len() && in_slot(#[trigger] s[i], day, start, end, onetime) && s[i].uuid
                    == u,
    )
}

/// `Vec::swap_remove`: the last element takes the place of the removed one.
pub open spec fn swap_remove_at<A>(s: Seq<A>, i: int) -> Seq<A> {
    s.update(i, s.last()).drop_last()
}

/// Swap-removes the given positions, the last position first.
pub open spec fn swap_remove_all<A>(s: Seq<A>, idx: Seq<int>) -> Seq<A>
    decreases idx.len(),
{
    if idx.len() == 0 {
        s
    } else {
        swap_remove_all(swap_remove_at(s, idx.last()), idx.drop_last())
    }
}

/// Positions that increase strictly and lie below `n`.
pub open spec fn increasing_below(idx: Seq<int>, n: int) -> bool {
    &&& forall|a: int, b: int| 0 <= a < b < idx.len() ==> idx[a] < idx[b]
    &&& forall|a: int| 0 <= a < idx.len() ==> 0 <= #[trigger] idx[a] < n
}

proof fn lemma_slot_indices_shape(
    s: Seq<MeetingView>,
    day: Weekday,
    start: (u32, u32),
    end: (u32, u32),
    onetime: bool,
)
    ensures
        increasing_below(slot_indices(s, day, start, end, onetime), s.len() as int),
        forall|k: int|
            0 <= k < slot_indices(s, day, start, end, onetime).len() ==> in_slot(
                s[#[trigger] slot_indices(s, day, start, end, onetime)[k]],
                day,
                start,
                end,
                onetime,
            ),
    decreases s.len(),
{
    if s.len() > 0 {
        lemma_slot_indices_shape(s.drop_last(), day, start, end, onetime);
        let p = slot_indices(s.drop_last(), day, start, end, onetime);
        assert forall|k: int| 0 <= k < p.len() implies s[#[trigger] p[k]] == s.drop_last()[p[k]] by {}
    }
}

/// In strictly increasing positions below `n`, the one at `k` leaves room for
/// those after it.
proof fn lemma_increasing_room(idx: Seq<int>, n: int, k: int)
    requires
        increasing_below(idx, n),
        0 <= k < idx.len(),
    ensures
        idx[k] <= n - idx.len() + k,
    decreases idx.len() - k,
{
    if k + 1 < idx.len() {
        lemma_increasing_room(idx, n, k + 1);
    }
}

/// The elements at the given positions, in the order of the positions.
pub open spec fn picked<A>(s: Seq<A>, idx: Seq<int>) -> Seq<A> {
    idx.map_values(|k: int| s[k])
}

/// The meetings that do not fall in a slot, in schedule order.
pub open spec fn outside_slot(
    s: Seq<MeetingView>,
    day: Weekday,
    start: (u32, u32),
    end: (u32, u32),
    onetime: bool,
) -> Seq<MeetingView>
    decreases s.len(),
{
    if s.len() == 0 {
        s
    } else {
        let p = outside_slot(s.drop_last(), day, start, end, onetime);
        if in_slot(s.last(), day, start, end, onetime) {
            p
        } else {
            p.push(s.last())
        }
    }
}

proof fn lemma_outside_slot_members(
    s: Seq<MeetingView>,
    day: Weekday,
    start: (u32, u32),
    end: (u32, u32),
    onetime: bool,
)
    ensures
        forall|i: int|
            0 <= i < outside_slot(s, day, start, end, onetime).len() ==> !in_slot(
                #[trigger] outside_slot(s, day, start, end, onetime)[i],
                day,
                start,
                end,
                onetime,
            ),
    decreases s.len(),
{
    if s.len() > 0 {
        let p = s.drop_last();
        lemma_outside_slot_members(p, day, start, end, onetime);
        let po = outside_slot(p, day, start, end, onetime);
        assert forall|i: int| 0 <= i < po.len() implies po.push(s.last())[i] == po[i] by {}
    }
}

/// A schedule is the meetings outside a slot together with those inside it.
proof fn lemma_slot_partition(
    s: Seq<MeetingView>,
    day: Weekday,
    start: (u32, u32),
    end: (u32, u32),
    onetime: bool,
)
    ensures
        outside_slot(s, day, start, end, onetime).to_multiset().add(
            picked(s, slot_indices(s, day, start, end, onetime)).to_multiset(),
        ) == s.to_multiset(),
    decreases s.len(),
{
    broadcast use vstd::seq_lib::group_to_multiset_ensures;
    broadcast use vstd::multiset::group_multiset_axioms;

    if s.len() == 0 {
        assert(picked(s, slot_indices(s, day, start, end, onetime)) =~= Seq::<MeetingView>::empty());
        assert(s.to_multiset() =~= Multiset::<MeetingView>::empty());
        assert(outside_slot(s, day, start, end, onetime).to_multiset().add(
            picked(s, slot_indices(s, day, start, end, onetime)).to_multiset(),
        ) =~= s.to_multiset());
    } else {
        let p = s.drop_last();
        lemma_slot_partition(p, day, start, end, onetime);
        lemma_slot_indices_shape(p, day, start, end, onetime);
        let sp = slot_indices(p, day, start, end, onetime);
        assert(picked(s, sp) =~= picked(p, sp));
        assert(p.push(s.last()) =~= s);
        if in_slot(s.last(), day, start, end, onetime) {
            assert(picked(s, sp.push(s.len() - 1)) =~= picked(s, sp).push(s.last()));
        }
        assert(outside_slot(s, day, start, end, onetime).to_multiset().add(
            picked(s, slot_indices(s, day, start, end, onetime)).to_multiset(),
        ) =~= s.to_multiset());
    }
}

/// Swap-removing positions takes away exactly the elements at those positions.
proof fn lemma_swap_remove_all_multiset<A>(s: Seq<A>, idx: Seq<int>)
    requires
        increasing_below(idx, s.len() as int),
    ensures
        swap_remove_all(s, idx).to_multiset().add(picked(s, idx).to_multiset()) == s.to_multiset(),
        swap_remove_all(s, idx).len() == s.len() - idx.len(),
    decreases idx.len(),
{
    broadcast use vstd::seq_lib::group_to_multiset_ensures;
    broadcast use vstd::multiset::group_multiset_axioms;

    if idx.len() == 0 {
        assert(picked(s, idx) =~= Seq::<A>::empty());
        assert(swap_remove_all(s, idx).to_multiset().add(picked(s, idx).to_multiset())
            =~= s.to_multiset());
    } else {
        let i = idx.last();
        let idx2 = idx.drop_last();
        let u = s.update(i, s.last());
        let t = swap_remove_at(s, i);
        assert(increasing_below(idx2, t.len() as int)) by {
            assert forall|a: int| 0 <= a < idx2.len() implies 0 <= #[trigger] idx2[a] < t.len() by {
                assert(idx[a] < idx[idx.len() - 1]);
            }
        }
        lemma_swap_remove_all_multiset(t, idx2);
        assert(picked(t, idx2) =~= picked(s, idx2)) by {
            assert forall|a: int| 0 <= a < idx2.len() implies t[idx2[a]] == s[idx2[a]] by {
                assert(idx[a] < idx[idx.len() - 1]);
            }
        }
        assert(picked(s, idx) =~= picked(s, idx2).push(s[i]));
        assert(t.push(u.last()) =~= u);
        assert(u.last() == s.last());
        assert(u.to_multiset() == s.to_multiset().insert(s.last()).remove(s[i]));
        assert(t.to_multiset().insert(s.last()) == u.to_multiset());
        assert(s.contains(s[i]));
        assert(s.to_multiset().count(s[i]) > 0);
        assert forall|v: A| #[trigger] t.to_multiset().insert(s[i]).count(v) == s.to_multiset().count(v) by {
            assert(t.to_multiset().insert(s.last()).count(v) == s.to_multiset().insert(s.last()).remove(s[i]).count(v));
        }
        assert(t.to_multiset().insert(s[i]) =~= s.to_multiset());
        assert(swap_remove_all(s, idx) == swap_remove_all(t, idx2));
        assert(swap_remove_all(s, idx).to_multiset().add(picked(s, idx).to_multiset())
            =~= s.to_multiset());
    }
}

/// Removing a slot from a schedule keeps every other meeting, as often as it
/// appeared, and leaves none of the slot; the schedule shrinks by the number
/// of meetings removed.
pub proof fn law_remove_matching_keeps_the_rest(
    s: Seq<MeetingView>,
    day: Weekday,
    start: (u32, u32),
    end: (u32, u32),
    onetime: bool,
)
    ensures
        ({
            let r = swap_remove_all(s, slot_indices(s, day, start, end, onetime));
            &&& r.to_multiset() == outside_slot(s, day, start, end, onetime).to_multiset()
            &&& forall|i: int| 0 <= i < r.len() ==> !in_slot(#[trigger] r[i], day, start, end, onetime)
            &&& r.len() + slot_indices(s, day, start, end, onetime).len() == s.len()
        }),
{
    broadcast use vstd::seq_lib::group_to_multiset_ensures;
    broadcast use vstd::multiset::group_multiset_axioms;

    let idx = slot_indices(s, day, start, end, onetime);
    let r = swap_remove_all(s, idx);
    let o = outside_slot(s, day, start, end, onetime);
    lemma_slot_indices_shape(s, day, start, end, onetime);
    lemma_swap_remove_all_multiset(s, idx);
    lemma_slot_partition(s, day, start, end, onetime);
    lemma_outside_slot_members(s, day, start, end, onetime);
    assert(r.to_multiset() =~= o.to_multiset()) by {
        assert forall|v: MeetingView| r.to_multiset().count(v) == o.to_multiset().count(v) by {
            assert(r.to_multiset().add(picked(s, idx).to_multiset()).count(v)
                == o.to_multiset().add(picked(s, idx).to_multiset()).count(v));
        }
    }
    assert forall|i: int| 0 <= i < r.len() implies !in_slot(#[trigger] r[i], day, start, end, onetime) by {
        assert(r.contains(r[i]));
        assert(o.to_multiset().count(r[i]) > 0);
        assert(o.contains(r[i]));
    }
}

impl View for ScheduleManager {
    type V = ManagerView;

    closed spec fn view(&self) -> ManagerView {
        ManagerView { schedule: view_meetings(self.schedule@), suspended: self.suspended@ }
    }
}

/// The weekly schedule of meetings together with the suspensions that keep
/// some of them quiet.
pub struct ScheduleManager {
    schedule: Vec<ScheduledMeeting>,
    suspended: SuspensionTable,
}

impl ScheduleManager {
    /// No meeting and no suspension.
    pub fn new() -> (r: ScheduleManager)
        ensures
            r@.schedule == Seq::<MeetingView>::empty(),
            r@.suspended == Map::<u128, Suspended>::empty(),
    {
        let r = ScheduleManager { schedule: Vec::new(), suspended: SuspensionTable::new() };
        assert(view_meetings(r.schedule@) =~= Seq::<MeetingView>::empty());
        r
    }

    /// The meetings, in schedule order.
    pub fn get_schedule(&self) -> (r: &Vec<ScheduledMeeting>)
        ensures
            view_meetings(r@) == self@.schedule,
    {
        &self.schedule
    }

    /// The suspensions in force.
    pub fn get_suspension_map(&self) -> (r: &SuspensionTable)
        ensures
            r@ == self@.suspended,
    {
        &self.suspended
    }

    /// How many meetings are on the schedule.
    pub fn meeting_count(&self) -> (r: usize)
        ensures
            r == self@.schedule.len(),
    {
        self.schedule.len()
    }

    /// Replaces the whole schedule (as loading it from storage does); the
    /// suspensions stay.
    pub fn set_schedule(&mut self, meetings: Vec<ScheduledMeeting>)
        ensures
            final(self)@.schedule == view_meetings(meetings@),
            final(self)@.suspended == old(self)@.suspended,
    {
        self.schedule = meetings;
    }

    /// Adds a meeting at the end of the schedule, unless the same meeting
    /// (same day, place, start, end and one-time flag) is already there.
    pub fn add_meeting(&mut self, meeting: ScheduledMeeting) -> (r: Result<(), SchedulingError>)
        ensures
            r is Err <==> exists|i: int|
                0 <= i < old(self)@.schedule.len() && same_meeting(
                    #[trigger] old(self)@.schedule[i],
                    meeting@,
                ),
            r is Err ==> r == Err::<(), SchedulingError>(SchedulingError::MeetingAlreadyExists)
                && final(self)@ == old(self)@,
            r is Ok ==> final(self)@.schedule == old(self)@.schedule.push(meeting@),
            final(self)@.suspended == old(self)@.suspended,
    {
        let n = self.schedule.len();
        let mut i: usize = 0;
        while i < n
            invariant
                n == self.schedule@.len(),
                i <= n,
                self@ == old(self)@,
                forall|j: int|
                    0 <= j < i ==> !same_meeting(#[trigger] self@.schedule[j], meeting@),
            decreases n - i,
        {
            if self.schedule[i].same_as(&meeting) {
                assert(self@.schedule[i as int] == self.schedule@[i as int]@);
                return Err(SchedulingError::MeetingAlreadyExists);
            }
            assert(self@.schedule[i as int] == self.schedule@[i as int]@);
            i = i + 1;
        }
        self.schedule.push(meeting);
        assert(view_meetings(self.schedule@) =~= old(self)@.schedule.push(meeting@));
        Ok(())
    }

    /// The first meeting with the given identifier, if any.
    pub fn get_by_uuid(&self, uuid: u128) -> (r: Option<ScheduledMeeting>)
        ensures
            is_first_with_uuid(self@.schedule, uuid, r),
    {
        let n = self.schedule.len();
        let mut i: usize = 0;
        while i < n
            invariant
                n == self.schedule@.len(),
                i <= n,
                forall|j: int| 0 <= j < i ==> (#[trigger] self@.schedule[j]).uuid != uuid,
            decreases n - i,
        {
            assert(self@.schedule[i as int] == self.schedule@[i as int]@);
            if self.schedule[i].uuid == uuid {
                return Some(self.schedule[i].snapshot());
            }
            i = i + 1;
        }
        None
    }

    /// Sets the note of the first meeting with the given identifier; tells
    /// whether there was one.
    pub fn set_note(&mut self, uuid: u128, note: String) -> (r: bool)
        ensures
            r == exists|i: int|
                0 <= i < old(self)@.schedule.len() && (#[trigger] old(self)@.schedule[i]).uuid
                    == uuid,
            !r ==> final(self)@ == old(self)@,
            r ==> exists|i: int|
                0 <= i < old(self)@.schedule.len() && (#[trigger] old(self)@.schedule[i]).uuid
                    == uuid && (forall|j: int|
                    0 <= j < i ==> (#[trigger] old(self)@.schedule[j]).uuid != uuid)
                    && final(self)@.schedule == old(self)@.schedule.update(
                    i,
                    MeetingView { note: Some(note@), ..old(self)@.schedule[i] },
                ),
            final(self)@.suspended == old(self)@.suspended,
    {
        let n = self.schedule.len();
        let mut i: usize = 0;
        while i < n
            invariant
                n == self.schedule@.len(),
                i <= n,
                self@ == old(self)@,
                forall|j: int| 0 <= j < i ==> (#[trigger] self@.schedule[j]).uuid != uuid,
            decreases n - i,
        {
            assert(self@.schedule[i as int] == self.schedule@[i as int]@);
            if self.schedule[i].uuid == uuid {
                let mut m = self.schedule[i].snapshot();
                m.note = Some(note);
                let ghost idx = i as int;
                self.schedule.set(i, m);
                assert(view_meetings(self.schedule@) =~= old(self)@.schedule.update(
                    idx,
                    MeetingView { note: Some(note@), ..old(self)@.schedule[idx] },
                ));
                return true;
            }
            i = i + 1;
        }
        false
    }

    /// Removes every meeting in the slot given by day, start, end and
    /// one-time flag, together with their suspensions; returns how many went.
    ///
    /// The positions are removed from the last one back, each by moving the
    /// last meeting of the schedule into its place.
    pub fn remove_matching(
        &mut self,
        day: Weekday,
        start: (u32, u32),
        end: (u32, u32),
        onetime: bool,
    ) -> (r: usize)
        ensures
            r == slot_indices(old(self)@.schedule, day, start, end, onetime).len(),
            final(self)@.schedule == swap_remove_all(
                old(self)@.schedule,
                slot_indices(old(self)@.schedule, day, start, end, onetime),
            ),
            final(self)@.suspended == old(self)@.suspended.remove_keys(
                slot_ids(old(self)@.schedule, day, start, end, onetime),
            ),
    {
        let ghost s0 = old(self)@.schedule;
        let n = self.schedule.len();
        let mut idx: Vec<usize> = Vec::new();
        let mut i: usize = 0;
        assert(s0.subrange(0, 0) =~= Seq::<MeetingView>::empty());
        assert(slot_ids(s0.subrange(0, 0), day, start, end, onetime) =~= Set::<u128>::empty());
        assert(old(self)@.suspended.remove_keys(Set::<u128>::empty()) =~= old(self)@.suspended);
        while i < n
            invariant
                n == self.schedule@.len(),
                s0 == view_meetings(self.schedule@),
                i <= n,
                idx@.map_values(|k: usize| k as int) == slot_indices(
                    s0.subrange(0, i as int),
                    day,
                    start,
                    end,
                    onetime,
                ),
                self.suspended@ == old(self)@.suspended.remove_keys(
                    slot_ids(s0.subrange(0, i as int), day, start, end, onetime),
                ),
            decreases n - i,
        {
            let ghost pre = s0.subrange(0, i as int);
            let ghost nxt = s0.subrange(0, i + 1);
            assert(nxt.drop_last() =~= pre);
            assert(nxt.last() == self.schedule@[i as int]@);
            let m = &self.schedule[i];
            let hit = m.day == day && m.start.0 == start.0 && m.start.1 == start.1 && m.end.0
                == end.0 && m.end.1 == end.1 && m.onetime == onetime;
            if hit {
                let u = m.uuid;
                let ghost before = idx@;
                idx.push(i);
                assert(idx@.map_values(|k: usize| k as int) =~= before.map_values(
                    |k: usize| k as int,
                ).push(i as int));
                self.suspended.remove(u);
                assert(slot_ids(nxt, day, start, end, onetime) =~= slot_ids(
                    pre,
                    day,
                    start,
                    end,
                    onetime,
                ).insert(u)) by {
                    assert forall|v: u128|
                        slot_ids(nxt, day, start, end, onetime).contains(v) implies slot_ids(
                            pre,
                            day,
                            start,
                            end,
                            onetime,
                        ).insert(u).contains(v) by {
                        let j = choose|j: int|
                            0 <= j < nxt.len() && in_slot(#[trigger] nxt[j], day, start, end, onetime)
                                && nxt[j].uuid == v;
                        if j < pre.len() {
                            assert(pre[j] == nxt[j]);
                        }
                    }
                    assert forall|v: u128|
                        slot_ids(pre, day, start, end, onetime).insert(u).contains(v) implies slot_ids(
                            nxt,
                            day,
                            start,
                            end,
                            onetime,
                        ).contains(v) by {
                        if v != u {
                            let j = choose|j: int|
                                0 <= j < pre.len() && in_slot(#[trigger] pre[j], day, start, end, onetime)
                                    && pre[j].uuid == v;
                            assert(nxt[j] == pre[j]);
                        } else {
                            assert(nxt[i as int] == nxt.last());
                        }
                    }
                }
                assert(old(self)@.suspended.remove_keys(slot_ids(pre, day, start, end, onetime)).remove(u)
                    =~= old(self)@.suspended.remove_keys(slot_ids(pre, day, start, end, onetime).insert(u)));
            } else {
                assert(slot_ids(nxt, day, start, end, onetime) =~= slot_ids(
                    pre,
                    day,
                    start,
                    end,
                    onetime,
                )) by {
                    assert forall|v: u128|
                        slot_ids(nxt, day, start, end, onetime).contains(v) implies slot_ids(
                            pre,
                            day,
                            start,
                            end,
                            onetime,
                        ).contains(v) by {
                        let j = choose|j: int|
                            0 <= j < nxt.len() && in_slot(#[trigger] nxt[j], day, start, end, onetime)
                                && nxt[j].uuid == v;
                        if j < pre.len() {
                            assert(pre[j] == nxt[j]);
                        }
                    }
                    assert forall|v: u128|
                        slot_ids(pre, day, start, end, onetime).contains(v) implies slot_ids(
                            nxt,
                            day,
                            start,
                            end,
                            onetime,
                        ).contains(v) by {
                        let j = choose|j: int|
                            0 <= j < pre.len() && in_slot(#[trigger] pre[j], day, start, end, onetime)
                                && pre[j].uuid == v;
                        assert(nxt[j] == pre[j]);
                    }
                }
            }
            i = i + 1;
        }
        assert(s0.subrange(0, n as int) =~= s0);
        let ghost all = slot_indices(s0, day, start, end, onetime);
        proof {
            lemma_slot_indices_shape(s0, day, start, end, onetime);
        }
        let total = idx.len();
        let mut j = total;
        assert(all.subrange(0, total as int) =~= all);
        while j > 0
            invariant
                j <= total == idx@.len() == all.len(),
                idx@.map_values(|k: usize| k as int) == all,
                increasing_below(all, s0.len() as int),
                view_meetings(self.schedule@).len() == s0.len() - (total - j),
                swap_remove_all(view_meetings(self.schedule@), all.subrange(0, j as int))
                    == swap_remove_all(s0, all),
                self.suspended@ == old(self)@.suspended.remove_keys(
                    slot_ids(s0, day, start, end, onetime),
                ),
            decreases j,
        {
            let k = idx[j - 1];
            assert(all[j - 1] == k as int);
            proof {
                lemma_increasing_room(all, s0.len() as int, j - 1);
            }
            let ghost cur = view_meetings(self.schedule@);
            self.schedule.swap_remove(k);
            assert(view_meetings(self.schedule@) =~= swap_remove_at(cur, k as int));
            assert(all.subrange(0, j as int).drop_last() =~= all.subrange(0, j - 1));
            j = j - 1;
        }
        assert(all.subrange(0, 0) =~= Seq::<int>::empty());
        total
    }

    /// Records that a meeting has been announced, keeping it quiet until
    /// Unix time `restore_at`.
    pub fn set_already_announced(&mut self, uuid: u128, restore_at: i64)
        ensures
            final(self)@ == with_suspension(old(self)@, uuid, announced_until(restore_at)),
    {
        self.suspended.insert(
            uuid,
            Suspended { reason: SuspendReason::AlreadyAnnounced, reschedule: restore_at },
        );
    }

    /// Whether a meeting is suspended, for whatever reason.
    pub fn is_already_announced(&self, uuid: u128) -> (r: bool)
        ensures
            r == self@.suspended.contains_key(uuid),
    {
        self.suspended.contains_key(uuid)
    }

    /// When the suspension of a meeting lapses, or -1 when it has none.
    pub fn get_suspension_restore_timestamp(&self, uuid: u128) -> (r: i64)
        ensures
            r == restore_time_in(self@.suspended, uuid),
    {
        match self.suspended.get(uuid) {
            Some(s) => s.reschedule,
            None => -1,
        }
    }

    /// Calls a meeting off until Unix time `restore_at`.
    pub fn cancel_meeting(&mut self, uuid: u128, restore_at: i64)
        ensures
            final(self)@ == with_suspension(old(self)@, uuid, cancelled_until(restore_at)),
    {
        self.suspended.insert(
            uuid,
            Suspended { reason: SuspendReason::Cancelled, reschedule: restore_at },
        );
    }

    /// Whether a meeting is called off.
    pub fn is_meeting_cancelled(&self, uuid: u128) -> (r: bool)
        ensures
            r == cancelled_in(self@.suspended, uuid),
    {
        self.suspended.is_cancelled(uuid)
    }

    /// Lifts the suspension of a meeting.
    pub fn unsuspend(&mut self, uuid: u128)
        ensures
            final(self)@ == without_suspension(old(self)@, uuid),
    {
        self.suspended.remove(uuid);
    }
}


/// The day before a day.
pub open spec fn day_before(d: Weekday) -> Weekday {
    day_at(day_index(d) + 6)
}

/// A message the announcement task has to post.
#[derive(Debug)]
pub enum Notice {
    /// Tomorrow's meeting, posted the day before from 9 o'clock on.
    DayBefore(ScheduledMeeting),
    /// Today's meeting, posted in the hour before it starts.
    Meeting(ScheduledMeeting),
}

/// The value of a notice.
pub enum NoticeView {
    DayBefore(MeetingView),
    Meeting(MeetingView),
}

impl View for Notice {
    type V = NoticeView;

    open spec fn view(&self) -> NoticeView {
        match self {
            Notice::DayBefore(m) => NoticeView::DayBefore(m@),
            Notice::Meeting(m) => NoticeView::Meeting(m@),
        }
    }
}

/// What one round of the announcement task decided.
#[derive(Debug)]
pub struct AnnouncementRound {
    /// The messages to post, in schedule order.
    pub notices: Vec<Notice>,
    /// The schedule changed and must be saved.
    pub save_meetings: bool,
    /// The round stopped at this meeting: its announcement was due, and
    /// it could not be made because its start or end is not a time of today
    /// (one-time and weekly meetings alike).
    pub stopped_at: Option<usize>,
}

/// The state that a round of the announcement task carries from meeting to
/// meeting.
pub struct RoundState {
    pub schedule: Seq<MeetingView>,
    pub suspended: Map<u128, Suspended>,
    pub notices: Seq<NoticeView>,
    pub save: bool,
    pub to_remove: Seq<int>,
    pub stopped: Option<int>,
}

/// The hour in which a meeting starting at `start_hour` is announced: the
/// hour before, or hour 0 for a meeting starting in hour 0.
pub open spec fn announce_hour(start_hour: u32) -> u32 {
    if start_hour == 0 {
        0
    } else {
        (start_hour - 1) as u32
    }
}

/// The minutes after the hour, beyond the start minute, at which a meeting
/// is announced.
pub const ANNOUNCEMENT_EPSILON_MINS: u32 = 0;

/// The notice for tomorrow is due: not posted yet, the meeting is not
/// called off, today is the day before, and it is 9 o'clock or later.
pub open spec fn day_before_due(m: MeetingView, suspended: Map<u128, Suspended>, now: Moment) -> bool {
    &&& !m.day_before_announced
    &&& !cancelled_in(suspended, m.uuid)
    &&& now.weekday == day_before(m.day)
    &&& now.hour >= 9
}

/// The announcement is due: today is the meeting's day, the meeting is not
/// suspended, and the clock is in the announcement hour at or past the
/// start minute.
pub open spec fn announcement_due(m: MeetingView, suspended: Map<u128, Suspended>, now: Moment) -> bool {
    &&& m.day == now.weekday
    &&& !suspended.contains_key(m.uuid)
    &&& now.hour == announce_hour(m.start.0)
    &&& now.minute >= ANNOUNCEMENT_EPSILON_MINS + m.start.1
}

/// What the announcement task does with the meeting at position `i`.
///
/// `stamps[i]` is the Unix time of the meeting's end today, or `None` when
/// its start or end is not a time of today; an announcement cannot be made
/// then, and the round stops at that meeting, having only reset its
/// day-before flag.
pub open spec fn round_step(st: RoundState, i: int, now: Moment, stamps: Seq<Option<i64>>) -> RoundState {
    let m = st.schedule[i];
    if day_before_due(m, st.suspended, now) {
        let m2 = MeetingView { day_before_announced: true, ..m };
        RoundState {
            schedule: st.schedule.update(i, m2),
            notices: st.notices.push(NoticeView::DayBefore(m2)),
            save: true,
            ..st
        }
    } else if announcement_due(m, st.suspended, now) {
        let posted = MeetingView { day_before_announced: false, ..m };
        match stamps[i] {
            None => RoundState {
                schedule: st.schedule.update(i, posted),
                save: true,
                stopped: Some(i),
                ..st
            },
            Some(t) => {
                let kept = MeetingView { note: None, ..posted };
                let base = RoundState {
                    schedule: st.schedule.update(i, kept),
                    notices: st.notices.push(NoticeView::Meeting(posted)),
                    save: true,
                    ..st
                };
                if m.onetime {
                    RoundState { to_remove: base.to_remove.push(i), ..base }
                } else {
                    RoundState { suspended: base.suspended.insert(m.uuid, announced_until(t)), ..base }
                }
            },
        }
    } else {
        st
    }
}

/// The state after the first `n` meetings of a round (a stopped round goes
/// no further).
pub open spec fn round_upto(init: RoundState, n: nat, now: Moment, stamps: Seq<Option<i64>>) -> RoundState
    decreases n,
{
    if n == 0 {
        init
    } else {
        let p = round_upto(init, (n - 1) as nat, now, stamps);
        if p.stopped is Some {
            p
        } else {
            round_step(p, n - 1, now, stamps)
        }
    }
}

/// The state a round starts from.
pub open spec fn round_start(v: ManagerView) -> RoundState {
    RoundState {
        schedule: v.schedule,
        suspended: v.suspended,
        notices: Seq::empty(),
        save: false,
        to_remove: Seq::empty(),
        stopped: None,
    }
}

/// The whole round over a schedule.
pub open spec fn round_result(v: ManagerView, now: Moment, stamps: Seq<Option<i64>>) -> RoundState {
    round_upto(round_start(v), v.schedule.len(), now, stamps)
}

/// The schedule once a round is over: the one-time meetings that were
/// announced leave it (unless the round stopped).
pub open spec fn schedule_after_round(st: RoundState) -> Seq<MeetingView> {
    if st.stopped is Some {
        st.schedule
    } else {
        swap_remove_all(st.schedule, st.to_remove)
    }
}

proof fn lemma_round_shape(init: RoundState, n: nat, now: Moment, stamps: Seq<Option<i64>>)
    requires
        init.to_remove.len() == 0,
        init.stopped is None,
        n <= init.schedule.len(),
    ensures
        round_upto(init, n, now, stamps).schedule.len() == init.schedule.len(),
        increasing_below(round_upto(init, n, now, stamps).to_remove, n as int),
        round_upto(init, n, now, stamps).stopped matches Some(k) ==> k < n,
    decreases n,
{
    if n > 0 {
        lemma_round_shape(init, (n - 1) as nat, now, stamps);
    }
}

proof fn lemma_round_stopped_stays(init: RoundState, k: nat, n: nat, now: Moment, stamps: Seq<Option<i64>>)
    requires
        k <= n,
        round_upto(init, k, now, stamps).stopped is Some,
    ensures
        round_upto(init, n, now, stamps) == round_upto(init, k, now, stamps),
    decreases n,
{
    if n > k {
        lemma_round_stopped_stays(init, k, (n - 1) as nat, now, stamps);
    }
}

impl ScheduleManager {
    /// One round of the announcement task at moment `now`.
    ///
    /// Meetings are taken in schedule order. `end_stamps[i]` is the Unix
    /// time of the end today of meeting `i`, or `None` when its start or end
    /// is not a time of today. A meeting that is not called off and whose
    /// notice for tomorrow is due gets that notice and its day-before flag;
    /// otherwise, when its announcement is due, it is announced (with its
    /// note, which is then cleared, and with the day-before flag reset); a
    /// one-time meeting then leaves the schedule at the end of the round, a
    /// weekly one is suspended until `end_stamps[i]`. An announcement that is
    /// due while `end_stamps[i]` is missing cannot be made: the round stops
    /// there, with the changes made so far, and reports where.
    pub fn announcement_round(&mut self, now: Moment, end_stamps: &Vec<Option<i64>>) -> (r:
        AnnouncementRound)
        requires
            end_stamps@.len() == old(self)@.schedule.len(),
        ensures
            ({
                let st = round_result(old(self)@, now, end_stamps@);
                &&& r.notices@.map_values(|n: Notice| n@) == st.notices
                &&& r.save_meetings == st.save
                &&& match r.stopped_at {
                    Some(k) => st.stopped == Some(k as int),
                    None => st.stopped is None,
                }
                &&& final(self)@.schedule == schedule_after_round(st)
                &&& final(self)@.suspended == st.suspended
            }),
    {
        let ghost init = round_start(self@);
        let n = self.schedule.len();
        let mut notices: Vec<Notice> = Vec::new();
        let mut save = false;
        let mut to_remove: Vec<usize> = Vec::new();
        let mut i: usize = 0;
        proof {
            lemma_round_shape(init, n as nat, now, end_stamps@);
        }
        assert(notices@.map_values(|x: Notice| x@) =~= Seq::<NoticeView>::empty());
        assert(to_remove@.map_values(|k: usize| k as int) =~= Seq::<int>::empty());
        while i < n
            invariant
                n == self.schedule@.len() == end_stamps@.len(),
                i <= n,
                init == round_start(old(self)@),
                init.schedule.len() == n,
                ({
                    let st = round_upto(init, i as nat, now, end_stamps@);
                    &&& st.stopped is None
                    &&& st.schedule == self@.schedule
                    &&& st.suspended == self@.suspended
                    &&& st.notices == notices@.map_values(|x: Notice| x@)
                    &&& st.save == save
                    &&& st.to_remove == to_remove@.map_values(|k: usize| k as int)
                }),
            decreases n - i,
        {
            proof {
                lemma_round_shape(init, i as nat, now, end_stamps@);
            }
            let ghost st = round_upto(init, i as nat, now, end_stamps@);
            let ghost notices_before = notices@;
            let ghost to_remove_before = to_remove@;
            assert(self@.schedule[i as int] == self.schedule@[i as int]@);
            let m = self.schedule[i].snapshot();
            if !m.day_before_announced && !self.suspended.is_cancelled(m.uuid) && now.weekday
                == m.day.pred() && now.hour >= 9 {
                let mut c = m;
                c.day_before_announced = true;
                notices.push(Notice::DayBefore(c.snapshot()));
                self.schedule.set(i, c);
                save = true;
                assert(notices@.map_values(|x: Notice| x@) =~= notices_before.map_values(
                    |x: Notice| x@,
                ).push(NoticeView::DayBefore(c@)));
                assert(view_meetings(self.schedule@) =~= st.schedule.update(i as int, c@));
            } else if m.day == now.weekday && !self.suspended.contains_key(m.uuid) && now.hour == (
            if m.start.0 == 0 {
                0
            } else {
                m.start.0 - 1
            }) && now.minute >= ANNOUNCEMENT_EPSILON_MINS + m.start.1 {
                let mut c = m;
                c.day_before_announced = false;
                save = true;
                match end_stamps[i] {
                    None => {
                        self.schedule.set(i, c);
                        assert(view_meetings(self.schedule@) =~= st.schedule.update(i as int, c@));
                        proof {
                            assert(round_upto(init, (i + 1) as nat, now, end_stamps@).stopped == Some(
                                i as int,
                            ));
                            lemma_round_stopped_stays(init, (i + 1) as nat, n as nat, now, end_stamps@);
                        }
                        return AnnouncementRound { notices, save_meetings: save, stopped_at: Some(i) };
                    },
                    Some(t) => {
                        notices.push(Notice::Meeting(c.snapshot()));
                        assert(notices@.map_values(|x: Notice| x@) =~= notices_before.map_values(
                            |x: Notice| x@,
                        ).push(NoticeView::Meeting(c@)));
                        c.note = None;
                        let onetime = c.onetime;
                        let uuid = c.uuid;
                        self.schedule.set(i, c);
                        assert(view_meetings(self.schedule@) =~= st.schedule.update(i as int, c@));
                        if onetime {
                            to_remove.push(i);
                            assert(to_remove@.map_values(|k: usize| k as int)
                                =~= to_remove_before.map_values(|k: usize| k as int).push(i as int));
                        } else {
                            self.suspended.insert(
                                uuid,
                                Suspended { reason: SuspendReason::AlreadyAnnounced, reschedule: t },
                            );
                        }
                    },
                }
            }
            i = i + 1;
        }
        let ghost st = round_upto(init, n as nat, now, end_stamps@);
        let total = to_remove.len();
        let mut j = total;
        assert(st.to_remove.subrange(0, total as int) =~= st.to_remove);
        while j > 0
            invariant
                j <= total == to_remove@.len() == st.to_remove.len(),
                to_remove@.map_values(|k: usize| k as int) == st.to_remove,
                increasing_below(st.to_remove, n as int),
                st.schedule.len() == n,
                view_meetings(self.schedule@).len() == n - (total - j),
                swap_remove_all(view_meetings(self.schedule@), st.to_remove.subrange(0, j as int))
                    == swap_remove_all(st.schedule, st.to_remove),
                self@.suspended == st.suspended,
            decreases j,
        {
            let k = to_remove[j - 1];
            assert(st.to_remove[j - 1] == k as int);
            proof {
                lemma_increasing_room(st.to_remove, n as int, j - 1);
            }
            let ghost cur = view_meetings(self.schedule@);
            self.schedule.swap_remove(k);
            assert(view_meetings(self.schedule@) =~= swap_remove_at(cur, k as int));
            assert(st.to_remove.subrange(0, j as int).drop_last() =~= st.to_remove.subrange(0, j - 1));
            j = j - 1;
        }
        assert(st.to_remove.subrange(0, 0) =~= Seq::<int>::empty());
        AnnouncementRound { notices, save_meetings: save, stopped_at: None }
    }
}


/// The suspension of meeting `u` has lapsed at Unix time `now`.
pub open spec fn lapsed(sus: Map<u128, Suspended>, u: u128, now: i64) -> bool {
    sus.contains_key(u) && suspension_done(sus[u].reschedule, now)
}

/// The identifiers of scheduled meetings whose suspension has lapsed.
pub open spec fn lapsed_ids(s: Seq<MeetingView>, sus: Map<u128, Suspended>, now: i64) -> Set<u128> {
    Set::new(
        |u: u128| exists|j: int| 0 <= j < s.len() && (#[trigger] s[j]).uuid == u && lapsed(sus, u, now),
    )
}

/// A meeting's day-before flag survives only on the day before the meeting.
pub open spec fn flag_kept(m: MeetingView, today: Weekday) -> MeetingView {
    MeetingView { day_before_announced: m.day_before_announced && today == day_before(m.day), ..m }
}

/// The flag of some meeting has to be reset.
pub open spec fn some_flag_stale(s: Seq<MeetingView>, today: Weekday) -> bool {
    exists|j: int|
        0 <= j < s.len() && (#[trigger] s[j]).day_before_announced && today != day_before(s[j].day)
}

/// The meeting has an identifier found on the schedule.
pub open spec fn has_uuid(s: Seq<MeetingView>, u: u128) -> bool {
    exists|j: int| 0 <= j < s.len() && (#[trigger] s[j]).uuid == u
}

/// A stored suspension is taken back: its meeting is on the schedule and it
/// has not lapsed.
pub open spec fn restore_accepts(s: Seq<MeetingView>, e: (u128, Suspended), now: i64) -> bool {
    has_uuid(s, e.0) && !suspension_done(e.1.reschedule, now)
}

/// The suspensions after taking back stored entries one by one.
pub open spec fn restored(
    m: Map<u128, Suspended>,
    es: Seq<(u128, Suspended)>,
    s: Seq<MeetingView>,
    now: i64,
) -> Map<u128, Suspended>
    decreases es.len(),
{
    if es.len() == 0 {
        m
    } else {
        let p = restored(m, es.drop_last(), s, now);
        if restore_accepts(s, es.last(), now) {
            p.insert(es.last().0, es.last().1)
        } else {
            p
        }
    }
}

/// How many stored entries are taken back.
pub open spec fn restore_count(es: Seq<(u128, Suspended)>, s: Seq<MeetingView>, now: i64) -> nat
    decreases es.len(),
{
    if es.len() == 0 {
        0
    } else {
        restore_count(es.drop_last(), s, now) + if restore_accepts(s, es.last(), now) {
            1nat
        } else {
            0nat
        }
    }
}

/// The meetings on a given day, in schedule order.
pub open spec fn on_day(s: Seq<MeetingView>, day: Weekday) -> Seq<MeetingView>
    decreases s.len(),
{
    if s.len() == 0 {
        s
    } else if s.last().day == day {
        on_day(s.drop_last(), day).push(s.last())
    } else {
        on_day(s.drop_last(), day)
    }
}

/// The weekly (not one-time) meetings on a given day, in schedule order.
pub open spec fn weekly_on_day(s: Seq<MeetingView>, day: Weekday) -> Seq<MeetingView>
    decreases s.len(),
{
    if s.len() == 0 {
        s
    } else if s.last().day == day && !s.last().onetime {
        weekly_on_day(s.drop_last(), day).push(s.last())
    } else {
        weekly_on_day(s.drop_last(), day)
    }
}

/// Seconds from `now` to the next occurrence of meeting `m`.
pub open spec fn wait_for(m: MeetingView, now: Moment) -> int {
    seconds_until(next_occurrence(m, now), now)
}

/// `r` is the first meeting of `s` with identifier `u`, or `None` when no
/// meeting of `s` has that identifier.
pub open spec fn is_first_with_uuid(s: Seq<MeetingView>, u: u128, r: Option<ScheduledMeeting>) -> bool {
    match r {
        Some(m) => exists|i: int|
            0 <= i < s.len() && #[trigger] s[i] == m@ && m@.uuid == u && forall|j: int|
                0 <= j < i ==> (#[trigger] s[j]).uuid != u,
        None => forall|j: int| 0 <= j < s.len() ==> (#[trigger] s[j]).uuid != u,
    }
}

/// `r` is the meeting of `s` whose next occurrence comes soonest after
/// `now`, the first such in the order of `s`, among the meetings whose start
/// is a clock time; `None` when no meeting has such a start.
pub open spec fn is_soonest(s: Seq<MeetingView>, now: Moment, r: Option<ScheduledMeeting>) -> bool {
    match r {
        None => forall|j: int| 0 <= j < s.len() ==> !valid_clock((#[trigger] s[j]).start),
        Some(m) => exists|i: int|
            0 <= i < s.len() && #[trigger] s[i] == m@ && valid_clock(m@.start) && (forall|j: int|
                0 <= j < s.len() && valid_clock((#[trigger] s[j]).start) ==> wait_for(m@, now)
                    <= wait_for(s[j], now)) && (forall|j: int|
                0 <= j < i && valid_clock((#[trigger] s[j]).start) ==> wait_for(m@, now) < wait_for(
                    s[j],
                    now,
                )),
    }
}

impl ScheduleManager {
    /// One round of the task that resets announcement state, at Unix time
    /// `now` on weekday `today`.
    ///
    /// For each meeting in turn, its suspension is lifted when it has lapsed,
    /// and its day-before flag is reset unless today is the day before it.
    /// Returns whether the suspensions changed and whether the schedule
    /// changed (and so which of the two must be saved).
    pub fn reset_announced_state(&mut self, today: Weekday, now: i64) -> (r: (bool, bool))
        ensures
            final(self)@.schedule == old(self)@.schedule.map_values(
                |m: MeetingView| flag_kept(m, today),
            ),
            final(self)@.suspended == old(self)@.suspended.remove_keys(
                lapsed_ids(old(self)@.schedule, old(self)@.suspended, now),
            ),
            r.0 == exists|j: int|
                0 <= j < old(self)@.schedule.len() && lapsed(
                    old(self)@.suspended,
                    (#[trigger] old(self)@.schedule[j]).uuid,
                    now,
                ),
            r.1 == some_flag_stale(old(self)@.schedule, today),
    {
        let ghost s0 = old(self)@.schedule;
        let ghost sus0 = old(self)@.suspended;
        let n = self.schedule.len();
        let mut refresh_suspended = false;
        let mut refresh_meetings = false;
        let mut i: usize = 0;
        assert(lapsed_ids(s0.subrange(0, 0), sus0, now) =~= Set::<u128>::empty());
        assert(sus0.remove_keys(Set::<u128>::empty()) =~= sus0);
        while i < n
            invariant
                n == self.schedule@.len() == s0.len(),
                i <= n,
                forall|j: int| i <= j < n ==> #[trigger] view_meetings(self.schedule@)[j] == s0[j],
                forall|j: int|
                    0 <= j < i ==> #[trigger] view_meetings(self.schedule@)[j] == flag_kept(
                        s0[j],
                        today,
                    ),
                self.suspended@ == sus0.remove_keys(lapsed_ids(s0.subrange(0, i as int), sus0, now)),
                refresh_suspended == exists|j: int|
                    0 <= j < i && lapsed(sus0, (#[trigger] s0[j]).uuid, now),
                refresh_meetings == exists|j: int|
                    0 <= j < i && (#[trigger] s0[j]).day_before_announced && today != day_before(
                        s0[j].day,
                    ),
            decreases n - i,
        {
            let ghost pre = s0.subrange(0, i as int);
            let ghost nxt = s0.subrange(0, i + 1);
            assert(view_meetings(self.schedule@)[i as int] == s0[i as int]);
            let u = self.schedule[i].uuid;
            let restore = match self.suspended.get(u) {
                Some(s) => s.reschedule,
                None => -1,
            };
            let ghost l_pre = lapsed_ids(pre, sus0, now);
            let ghost l_nxt = lapsed_ids(nxt, sus0, now);
            assert(l_nxt =~= if lapsed(sus0, u, now) {
                l_pre.insert(u)
            } else {
                l_pre
            }) by {
                assert forall|v: u128| l_nxt.contains(v) implies (if lapsed(sus0, u, now) {
                    l_pre.insert(u)
                } else {
                    l_pre
                }).contains(v) by {
                    let j = choose|j: int| 0 <= j < nxt.len() && (#[trigger] nxt[j]).uuid == v && lapsed(sus0, v, now);
                    if j < pre.len() {
                        assert(pre[j] == nxt[j]);
                    }
                }
                assert forall|v: u128| (if lapsed(sus0, u, now) {
                    l_pre.insert(u)
                } else {
                    l_pre
                }).contains(v) implies l_nxt.contains(v) by {
                    if l_pre.contains(v) {
                        let j = choose|j: int| 0 <= j < pre.len() && (#[trigger] pre[j]).uuid == v && lapsed(sus0, v, now);
                        assert(nxt[j] == pre[j]);
                    } else {
                        assert(nxt[i as int] == s0[i as int]);
                    }
                }
            }
            if is_suspension_done(restore, now) {
                self.suspended.remove(u);
                assert(!l_pre.contains(u));
                assert(sus0.remove_keys(l_pre).remove(u) =~= sus0.remove_keys(l_pre.insert(u)));
                refresh_suspended = true;
            } else {
                assert(lapsed(sus0, u, now) ==> l_pre.contains(u));
            }
            let ghost before = view_meetings(self.schedule@);
            let m = &self.schedule[i];
            if m.day_before_announced && today != m.day.pred() {
                let mut c = m.snapshot();
                c.day_before_announced = false;
                self.schedule.set(i, c);
                assert(view_meetings(self.schedule@) =~= before.update(i as int, c@));
                refresh_meetings = true;
            }
            assert(view_meetings(self.schedule@)[i as int] == flag_kept(s0[i as int], today));
            i = i + 1;
        }
        assert(s0.subrange(0, n as int) =~= s0);
        assert(view_meetings(self.schedule@) =~= s0.map_values(|m: MeetingView| flag_kept(m, today)));
        (refresh_suspended, refresh_meetings)
    }

    /// Takes back stored suspensions: an entry counts when its meeting is on
    /// the schedule and it has not lapsed at Unix time `now`; returns how
    /// many were taken back.
    pub fn restore_suspensions(&mut self, entries: &Vec<(u128, Suspended)>, now: i64) -> (r: usize)
        ensures
            r == restore_count(entries@, old(self)@.schedule, now),
            final(self)@.suspended == restored(old(self)@.suspended, entries@, old(self)@.schedule, now),
            final(self)@.schedule == old(self)@.schedule,
    {
        let ghost s0 = old(self)@.schedule;
        let ghost sus0 = old(self)@.suspended;
        let n = entries.len();
        let mut count: usize = 0;
        let mut i: usize = 0;
        assert(entries@.subrange(0, 0) =~= Seq::<(u128, Suspended)>::empty());
        while i < n
            invariant
                n == entries@.len(),
                i <= n,
                self@.schedule == s0,
                count == restore_count(entries@.subrange(0, i as int), s0, now),
                count <= i,
                self.suspended@ == restored(sus0, entries@.subrange(0, i as int), s0, now),
            decreases n - i,
        {
            assert(entries@.subrange(0, i + 1).drop_last() =~= entries@.subrange(0, i as int));
            let e = entries[i];
            let mut found = false;
            let mut j: usize = 0;
            let m = self.schedule.len();
            while j < m
                invariant
                    m == self.schedule@.len() == s0.len(),
                    self@.schedule == s0,
                    j <= m,
                    found == exists|k: int| 0 <= k < j && (#[trigger] s0[k]).uuid == e.0,
                decreases m - j,
            {
                assert(s0[j as int] == self.schedule@[j as int]@);
                if self.schedule[j].uuid == e.0 {
                    found = true;
                }
                j = j + 1;
            }
            if found && !is_suspension_done(e.1.reschedule, now) {
                self.suspended.insert(e.0, e.1);
                count = count + 1;
            }
            i = i + 1;
        }
        assert(entries@.subrange(0, n as int) =~= entries@);
        count
    }

    /// The meetings on a given day, in schedule order.
    pub fn meetings_on_day(&self, day: Weekday) -> (r: Vec<ScheduledMeeting>)
        ensures
            view_meetings(r@) == on_day(self@.schedule, day),
    {
        let ghost s0 = self@.schedule;
        let n = self.schedule.len();
        let mut out: Vec<ScheduledMeeting> = Vec::new();
        let mut i: usize = 0;
        assert(s0.subrange(0, 0) =~= Seq::<MeetingView>::empty());
        assert(view_meetings(out@) =~= Seq::<MeetingView>::empty());
        while i < n
            invariant
                n == self.schedule@.len() == s0.len(),
                s0 == self@.schedule,
                i <= n,
                view_meetings(out@) == on_day(s0.subrange(0, i as int), day),
            decreases n - i,
        {
            assert(s0.subrange(0, i + 1).drop_last() =~= s0.subrange(0, i as int));
            assert(s0[i as int] == self.schedule@[i as int]@);
            if self.schedule[i].day == day {
                let ghost before = out@;
                out.push(self.schedule[i].snapshot());
                assert(view_meetings(out@) =~= view_meetings(before).push(s0[i as int]));
            }
            i = i + 1;
        }
        assert(s0.subrange(0, n as int) =~= s0);
        out
    }

    /// The meetings that calling off a day applies to: the weekly meetings
    /// of that day, in schedule order (one-time meetings are left alone).
    pub fn meetings_to_cancel(&self, day: Weekday) -> (r: Vec<ScheduledMeeting>)
        ensures
            view_meetings(r@) == weekly_on_day(self@.schedule, day),
    {
        let ghost s0 = self@.schedule;
        let n = self.schedule.len();
        let mut out: Vec<ScheduledMeeting> = Vec::new();
        let mut i: usize = 0;
        assert(s0.subrange(0, 0) =~= Seq::<MeetingView>::empty());
        assert(view_meetings(out@) =~= Seq::<MeetingView>::empty());
        while i < n
            invariant
                n == self.schedule@.len() == s0.len(),
                s0 == self@.schedule,
                i <= n,
                view_meetings(out@) == weekly_on_day(s0.subrange(0, i as int), day),
            decreases n - i,
        {
            assert(s0.subrange(0, i + 1).drop_last() =~= s0.subrange(0, i as int));
            assert(s0[i as int] == self.schedule@[i as int]@);
            if self.schedule[i].day == day && !self.schedule[i].onetime {
                let ghost before = out@;
                out.push(self.schedule[i].snapshot());
                assert(view_meetings(out@) =~= view_meetings(before).push(s0[i as int]));
            }
            i = i + 1;
        }
        assert(s0.subrange(0, n as int) =~= s0);
        out
    }

    /// The meeting whose next occurrence comes soonest after `now` (the
    /// first such in schedule order); meetings whose start is not a clock
    /// time have no next occurrence and are passed over.
    pub fn get_closest_future_meeting(&self, now: Moment) -> (r: Option<ScheduledMeeting>)
        ensures
            is_soonest(self@.schedule, now, r),
    {
        let ghost s0 = self@.schedule;
        let n = self.schedule.len();
        let mut best: Option<usize> = None;
        let mut best_wait: i64 = 0;
        let mut i: usize = 0;
        while i < n
            invariant
                n == self.schedule@.len() == s0.len(),
                s0 == self@.schedule,
                i <= n,
                match best {
                    None => forall|j: int| 0 <= j < i ==> !valid_clock((#[trigger] s0[j]).start),
                    Some(b) => b < i && valid_clock(s0[b as int].start) && best_wait == wait_for(
                        s0[b as int],
                        now,
                    ) && (forall|j: int|
                        0 <= j < i && valid_clock((#[trigger] s0[j]).start) ==> best_wait
                            <= wait_for(s0[j], now)) && (forall|j: int|
                        0 <= j < b && valid_clock((#[trigger] s0[j]).start) ==> best_wait < wait_for(
                            s0[j],
                            now,
                        )),
                },
            decreases n - i,
        {
            assert(s0[i as int] == self.schedule@[i as int]@);
            let m = &self.schedule[i];
            if m.start.0 < 24 && m.start.1 < 60 {
                let occ = m.get_datetime_of_next(now);
                let days = (occ.days_ahead + occ.then_add_days) as i64;
                let wait = days * 86400 + (occ.hour as i64) * 3600 + (occ.minute as i64) * 60
                    + (occ.second as i64) - ((now.hour as i64) * 3600 + (now.minute as i64) * 60
                    + (now.second as i64));
                assert(wait == wait_for(s0[i as int], now));
                match best {
                    None => {
                        best = Some(i);
                        best_wait = wait;
                    },
                    Some(_) => {
                        if wait < best_wait {
                            best = Some(i);
                            best_wait = wait;
                        }
                    },
                }
            }
            i = i + 1;
        }
        match best {
            None => None,
            Some(b) => Some(self.schedule[b].snapshot()),
        }
    }
}


proof fn lemma_round_keys_grow(init: RoundState, n: nat, now: Moment, stamps: Seq<Option<i64>>)
    requires
        n <= init.schedule.len(),
    ensures
        forall|u: u128|
            #[trigger] init.suspended.contains_key(u) ==> round_upto(init, n, now, stamps).suspended.contains_key(u),
        forall|u: u128|
            #[trigger] init.suspended.contains_key(u) ==> round_upto(init, n, now, stamps).suspended[u]
                == init.suspended[u],
        round_upto(init, n, now, stamps).schedule.len() == init.schedule.len(),
    decreases n,
{
    if n > 0 {
        lemma_round_keys_grow(init, (n - 1) as nat, now, stamps);
    }
}

proof fn lemma_round_notices_quiet(init: RoundState, n: nat, now: Moment, stamps: Seq<Option<i64>>)
    requires
        n <= init.schedule.len(),
        init.notices.len() == 0,
    ensures
        forall|k: int|
            0 <= k < round_upto(init, n, now, stamps).notices.len() ==> match #[trigger] round_upto(
                init,
                n,
                now,
                stamps,
            ).notices[k] {
                NoticeView::Meeting(m) => !init.suspended.contains_key(m.uuid),
                NoticeView::DayBefore(m) => !cancelled_in(init.suspended, m.uuid),
            },
    decreases n,
{
    if n > 0 {
        lemma_round_notices_quiet(init, (n - 1) as nat, now, stamps);
        lemma_round_keys_grow(init, (n - 1) as nat, now, stamps);
        let p = round_upto(init, (n - 1) as nat, now, stamps);
        let q = round_upto(init, n, now, stamps);
        assert forall|k: int| 0 <= k < q.notices.len() implies match #[trigger] q.notices[k] {
            NoticeView::Meeting(m) => !init.suspended.contains_key(m.uuid),
            NoticeView::DayBefore(m) => !cancelled_in(init.suspended, m.uuid),
        } by {
            if k < p.notices.len() {
                assert(q.notices[k] == p.notices[k]);
            } else {
                let u = p.schedule[n - 1].uuid;
                if init.suspended.contains_key(u) {
                    assert(p.suspended.contains_key(u));
                    assert(p.suspended[u] == init.suspended[u]);
                }
            }
        }
    }
}

proof fn lemma_round_weekly_suspended(init: RoundState, n: nat, now: Moment, stamps: Seq<Option<i64>>)
    requires
        n <= init.schedule.len(),
        init.stopped is None,
        forall|k: int| 0 <= k < init.notices.len() ==> !(#[trigger] init.notices[k] matches NoticeView::Meeting(m) && !m.onetime && !init.suspended.contains_key(m.uuid)),
    ensures
        round_upto(init, n, now, stamps).stopped is None ==> forall|k: int|
            0 <= k < round_upto(init, n, now, stamps).notices.len() ==> !(
            #[trigger] round_upto(init, n, now, stamps).notices[k] matches NoticeView::Meeting(m)
                && !m.onetime && !round_upto(init, n, now, stamps).suspended.contains_key(m.uuid)),
    decreases n,
{
    if n > 0 {
        lemma_round_weekly_suspended(init, (n - 1) as nat, now, stamps);
        lemma_round_keys_grow(init, (n - 1) as nat, now, stamps);
        let p = round_upto(init, (n - 1) as nat, now, stamps);
        let q = round_upto(init, n, now, stamps);
        if p.stopped is None && q.stopped is None {
            assert forall|u: u128| #[trigger] p.suspended.contains_key(u) implies q.suspended.contains_key(u) by {}
            assert forall|k: int| 0 <= k < q.notices.len() implies !(#[trigger] q.notices[k] matches NoticeView::Meeting(m)
                && !m.onetime && !q.suspended.contains_key(m.uuid)) by {
                if k < p.notices.len() {
                    assert(q.notices[k] == p.notices[k]);
                }
            }
        }
    }
}

/// An announcement round never announces a meeting that was suspended when
/// the round began, and never posts the notice for tomorrow of a meeting
/// that was called off: a meeting announced today, or called off, stays quiet.
pub proof fn law_round_skips_suspended(v: ManagerView, now: Moment, stamps: Seq<Option<i64>>)
    ensures
        ({
            let st = round_result(v, now, stamps);
            forall|k: int|
                0 <= k < st.notices.len() ==> match #[trigger] st.notices[k] {
                    NoticeView::Meeting(m) => !v.suspended.contains_key(m.uuid),
                    NoticeView::DayBefore(m) => !cancelled_in(v.suspended, m.uuid),
                }
        }),
{
    lemma_round_notices_quiet(round_start(v), v.schedule.len(), now, stamps);
}

/// After a round that did not stop, every weekly meeting it announced is
/// suspended, so that a following round does not announce it again.
pub proof fn law_round_suspends_what_it_announced(v: ManagerView, now: Moment, stamps: Seq<Option<i64>>)
    ensures
        ({
            let st = round_result(v, now, stamps);
            st.stopped is None ==> forall|k: int|
                0 <= k < st.notices.len() ==> !(#[trigger] st.notices[k] matches NoticeView::Meeting(m)
                    && !m.onetime && !st.suspended.contains_key(m.uuid))
        }),
{
    lemma_round_weekly_suspended(round_start(v), v.schedule.len(), now, stamps);
}

/// A note goes out with the announcement of its meeting and is then removed:
/// when the announcement can be made (the meeting's start and end are times
/// of today), the posted notice carries the note the meeting had, and the
/// meeting stays in the schedule without it.
pub proof fn law_note_posted_then_cleared(st: RoundState, i: int, now: Moment, stamps: Seq<Option<i64>>)
    requires
        0 <= i < st.schedule.len(),
        !day_before_due(st.schedule[i], st.suspended, now),
        announcement_due(st.schedule[i], st.suspended, now),
        stamps[i] is Some,
    ensures
        ({
            let next = round_step(st, i, now, stamps);
            &&& next.notices.last() matches NoticeView::Meeting(p) && p.note == st.schedule[i].note
                && p.uuid == st.schedule[i].uuid
            &&& next.schedule[i].note is None
            &&& next.schedule[i].uuid == st.schedule[i].uuid
        }),
{
}

/// Recording that a meeting was announced makes it count as suspended, not
/// as called off, with the given restore time; lifting the suspension then
/// leaves it unsuspended, with no restore time (-1). Neither touches the
/// schedule or the suspensions of other meetings.
pub proof fn law_announced_then_lifted(v: ManagerView, u: u128, t: i64)
    ensures
        ({
            let a = with_suspension(v, u, announced_until(t));
            let l = without_suspension(a, u);
            &&& a.suspended.contains_key(u)
            &&& restore_time_in(a.suspended, u) == t
            &&& !cancelled_in(a.suspended, u)
            &&& !l.suspended.contains_key(u)
            &&& restore_time_in(l.suspended, u) == -1
            &&& !cancelled_in(l.suspended, u)
            &&& a.schedule == v.schedule && l.schedule == v.schedule
            &&& a.suspended.remove(u) == v.suspended.remove(u)
            &&& l.suspended == v.suspended.remove(u)
        }),
{
    let a = with_suspension(v, u, announced_until(t));
    assert(a.suspended.remove(u) =~= v.suspended.remove(u));
    assert(a.suspended.remove(u).remove(u) =~= v.suspended.remove(u));
}

/// Calling a meeting off makes it count as called off, with the given restore
/// time; lifting the suspension undoes that. Neither touches the schedule or
/// the suspensions of other meetings.
pub proof fn law_cancel_then_lifted(v: ManagerView, u: u128, t: i64)
    ensures
        ({
            let c = with_suspension(v, u, cancelled_until(t));
            let l = without_suspension(c, u);
            &&& c.suspended.contains_key(u)
            &&& restore_time_in(c.suspended, u) == t
            &&& cancelled_in(c.suspended, u)
            &&& !l.suspended.contains_key(u)
            &&& restore_time_in(l.suspended, u) == -1
            &&& !cancelled_in(l.suspended, u)
            &&& c.schedule == v.schedule && l.schedule == v.schedule
            &&& c.suspended.remove(u) == v.suspended.remove(u)
            &&& l.suspended == v.suspended.remove(u)
        }),
{
    let c = with_suspension(v, u, cancelled_until(t));
    assert(c.suspended.remove(u) =~= v.suspended.remove(u));
    assert(c.suspended.remove(u).remove(u) =~= v.suspended.remove(u));
}

/// The identifiers whose saved suspension is taken back: the meeting is on
/// the schedule and the suspension has not lapsed at `now`.
pub open spec fn kept_ids(saved: Map<u128, Suspended>, s: Seq<MeetingView>, now: i64) -> Set<u128> {
    saved.dom().filter(|u: u128| has_uuid(s, u) && !suspension_done(saved[u].reschedule, now))
}

/// One run of a periodic task: an announcement round at a moment, with the
/// end stamps it was given, or a reset round on a weekday at a Unix time.
pub enum Tick {
    Round(Moment, Seq<Option<i64>>),
    Reset(Weekday, i64),
}

/// The manager after one run of a periodic task, as `announcement_round` and
/// `reset_announced_state` leave it.
pub open spec fn tick_step(v: ManagerView, t: Tick) -> ManagerView {
    match t {
        Tick::Round(now, stamps) => {
            let st = round_result(v, now, stamps);
            ManagerView { schedule: schedule_after_round(st), suspended: st.suspended }
        },
        Tick::Reset(today, now) => ManagerView {
            schedule: v.schedule.map_values(|m: MeetingView| flag_kept(m, today)),
            suspended: v.suspended.remove_keys(lapsed_ids(v.schedule, v.suspended, now)),
        },
    }
}

/// The manager after a series of runs of the periodic tasks.
pub open spec fn after_ticks(v: ManagerView, ts: Seq<Tick>) -> ManagerView
    decreases ts.len(),
{
    if ts.len() == 0 {
        v
    } else {
        tick_step(after_ticks(v, ts.drop_last()), ts.last())
    }
}

/// No notice of a list is about meeting `u`.
pub open spec fn no_notice_for(ns: Seq<NoticeView>, u: u128) -> bool {
    forall|j: int|
        0 <= j < ns.len() ==> match #[trigger] ns[j] {
            NoticeView::Meeting(m) => m.uuid != u,
            NoticeView::DayBefore(m) => m.uuid != u,
        }
}

proof fn lemma_round_quiet_for_cancelled(p: ManagerView, now: Moment, stamps: Seq<Option<i64>>, u: u128)
    requires
        cancelled_in(p.suspended, u),
    ensures
        round_result(p, now, stamps).suspended.get(u) == p.suspended.get(u),
        no_notice_for(round_result(p, now, stamps).notices, u),
{
    law_round_skips_suspended(p, now, stamps);
    let init = round_start(p);
    lemma_round_keys_grow(init, p.schedule.len(), now, stamps);
    let st = round_result(p, now, stamps);
    assert(st == round_upto(init, p.schedule.len(), now, stamps));
    assert(init.suspended == p.suspended);
    assert(init.suspended.contains_key(u));
    assert(st.suspended.contains_key(u));
    assert(st.suspended[u] == p.suspended[u]);
    assert forall|j: int| 0 <= j < st.notices.len() implies match #[trigger] st.notices[j] {
        NoticeView::Meeting(m) => m.uuid != u,
        NoticeView::DayBefore(m) => m.uuid != u,
    } by {
        match st.notices[j] {
            NoticeView::Meeting(m) => {},
            NoticeView::DayBefore(m) => {},
        }
    }
}

proof fn lemma_tick_keeps_cancelled(p: ManagerView, t: Tick, u: u128, restore: i64)
    requires
        cancelled_in(p.suspended, u),
        p.suspended[u].reschedule == restore,
        t matches Tick::Reset(_, now) ==> !suspension_done(restore, now),
    ensures
        tick_step(p, t).suspended.get(u) == p.suspended.get(u),
        t matches Tick::Round(now, stamps) ==> no_notice_for(round_result(p, now, stamps).notices, u),
{
    match t {
        Tick::Round(now, stamps) => {
            lemma_round_quiet_for_cancelled(p, now, stamps, u);
        },
        Tick::Reset(today, now) => {
            assert(!lapsed_ids(p.schedule, p.suspended, now).contains(u));
        },
    }
}

/// A called-off meeting stays quiet until its suspension lapses: over any
/// series of announcement and reset rounds whose reset rounds all come
/// before the suspension's restore time has passed, the suspension stays as
/// it was and no round posts a notice of either kind for the meeting.
pub proof fn law_cancelled_stays_quiet(v: ManagerView, ts: Seq<Tick>, u: u128)
    requires
        cancelled_in(v.suspended, u),
        forall|k: int|
            0 <= k < ts.len() ==> (#[trigger] ts[k] matches Tick::Reset(_, now) ==> !suspension_done(
                v.suspended[u].reschedule,
                now,
            )),
    ensures
        after_ticks(v, ts).suspended.get(u) == v.suspended.get(u),
        forall|k: int|
            0 <= k < ts.len() ==> (#[trigger] ts[k] matches Tick::Round(now, stamps) ==> no_notice_for(
                round_result(after_ticks(v, ts.take(k)), now, stamps).notices,
                u,
            )),
    decreases ts.len(),
{
    if ts.len() > 0 {
        let n = ts.len() - 1;
        let q = ts.drop_last();
        assert forall|k: int| 0 <= k < q.len() implies (#[trigger] q[k] matches Tick::Reset(_, now)
            ==> !suspension_done(v.suspended[u].reschedule, now)) by {
            assert(q[k] == ts[k]);
        }
        law_cancelled_stays_quiet(v, q, u);
        let p = after_ticks(v, q);
        assert(ts.take(n) =~= q);
        assert(ts[n] == ts.last());
        lemma_tick_keeps_cancelled(p, ts.last(), u, v.suspended[u].reschedule);
        assert forall|k: int| 0 <= k < ts.len() implies (#[trigger] ts[k] matches Tick::Round(now, stamps)
            ==> no_notice_for(round_result(after_ticks(v, ts.take(k)), now, stamps).notices, u)) by {
            if k < n {
                assert(q[k] == ts[k]);
                assert(q.take(k) =~= ts.take(k));
            }
        }
    }
}

/// Saving the suspensions and taking them back: when the entries read back
/// hold the saved map `saved` (one entry per meeting, as a stored map has
/// them), every saved suspension whose meeting is on the schedule and has not
/// lapsed at `now` is in force afterwards, every other meeting keeps what it
/// had, and the count returned is the number of suspensions taken back.
pub proof fn law_saved_suspensions_come_back(
    sus: Map<u128, Suspended>,
    saved: Map<u128, Suspended>,
    es: Seq<(u128, Suspended)>,
    s: Seq<MeetingView>,
    now: i64,
)
    requires
        table_view(es) == saved,
        distinct_keys(es),
    ensures
        forall|u: u128|
            #[trigger] restored(sus, es, s, now).get(u) == if kept_ids(saved, s, now).contains(u) {
                Some(saved[u])
            } else {
                sus.get(u)
            },
        kept_ids(saved, s, now).finite(),
        restore_count(es, s, now) == kept_ids(saved, s, now).len(),
    decreases es.len(),
{
    lemma_table_view_keys(es);
    if es.len() == 0 {
        assert(kept_ids(saved, s, now) =~= Set::<u128>::empty());
    } else {
        let p = es.drop_last();
        let k = es.last().0;
        let v = es.last().1;
        let pm = table_view(p);
        assert(distinct_keys(p)) by {
            assert forall|i: int, j: int| 0 <= i < j < p.len() implies #[trigger] p[i].0
                != #[trigger] p[j].0 by {
                assert(p[i] == es[i] && p[j] == es[j]);
            }
        }
        law_saved_suspensions_come_back(sus, pm, p, s, now);
        lemma_table_view_keys(p);
        assert(!pm.contains_key(k)) by {
            if pm.contains_key(k) {
                let i = choose|i: int| 0 <= i < p.len() && (#[trigger] p[i]).0 == k;
                assert(es[i] == p[i]);
                assert(es[i].0 != es[es.len() - 1].0);
            }
        }
        assert(saved == pm.insert(k, v));
        let acc = has_uuid(s, k) && !suspension_done(v.reschedule, now);
        assert(kept_ids(saved, s, now) =~= (if acc {
            kept_ids(pm, s, now).insert(k)
        } else {
            kept_ids(pm, s, now)
        }));
        assert(!kept_ids(pm, s, now).contains(k));
    }
}

/// A reset round lifts a suspension only when it has lapsed: the
/// suspension of meeting `u` goes exactly when `u` is a scheduled meeting,
/// the suspension has a restore time (not -1) and `now` is past it; every
/// other suspension stays as it was, whatever its reason. A meeting keeps
/// its day-before flag only on the day before it; nothing else about it
/// changes.
pub proof fn law_reset_lifts_only_lapsed(s: Seq<MeetingView>, sus: Map<u128, Suspended>, today: Weekday, now: i64)
    ensures
        forall|u: u128|
            #[trigger] sus.remove_keys(lapsed_ids(s, sus, now)).get(u) == if sus.contains_key(u)
                && (exists|j: int| 0 <= j < s.len() && s[j].uuid == u) && sus[u].reschedule != -1
                && now > sus[u].reschedule {
                None
            } else {
                sus.get(u)
            },
        ({
            let f = s.map_values(|m: MeetingView| flag_kept(m, today));
            &&& f.len() == s.len()
            &&& forall|i: int|
                0 <= i < s.len() ==> (#[trigger] f[i]).day_before_announced == (
                s[i].day_before_announced && (day_index(today) + 1) % 7 == day_index(s[i].day))
                    && f[i] == MeetingView { day_before_announced: f[i].day_before_announced, ..s[i] }
        }),
{
    assert forall|u: u128|
        #[trigger] sus.remove_keys(lapsed_ids(s, sus, now)).get(u) == if sus.contains_key(u)
            && (exists|j: int| 0 <= j < s.len() && s[j].uuid == u) && sus[u].reschedule != -1
            && now > sus[u].reschedule {
            None
        } else {
            sus.get(u)
        } by {
        if sus.contains_key(u) && (exists|j: int| 0 <= j < s.len() && s[j].uuid == u) {
            let j = choose|j: int| 0 <= j < s.len() && s[j].uuid == u;
            assert(s[j].uuid == u);
        }
    }
}

proof fn lemma_outside_slot_counts(
    s: Seq<MeetingView>,
    day: Weekday,
    start: (u32, u32),
    end: (u32, u32),
    onetime: bool,
)
    ensures
        forall|x: MeetingView|
            #[trigger] outside_slot(s, day, start, end, onetime).to_multiset().count(x) == if x.day
                == day && x.start == start && x.end == end && x.onetime == onetime {
                0
            } else {
                s.to_multiset().count(x)
            },
    decreases s.len(),
{
    broadcast use vstd::seq_lib::group_to_multiset_ensures;
    broadcast use vstd::multiset::group_multiset_axioms;

    if s.len() == 0 {
    } else {
        let q = s.drop_last();
        let l = s.last();
        lemma_outside_slot_counts(q, day, start, end, onetime);
        assert(q.push(l) =~= s);
        assert(s.to_multiset() =~= q.to_multiset().insert(l));
        let p = outside_slot(q, day, start, end, onetime);
        if !in_slot(l, day, start, end, onetime) {
            assert(p.push(l).to_multiset() =~= p.to_multiset().insert(l));
        }
    }
}

/// Removing a slot removes exactly the meetings whose day, start, end and
/// one-time flag all equal the requested ones: every other meeting stays on
/// the schedule as often as it was there, none of the slot stays, and the
/// count returned is how many went.
pub proof fn law_remove_matching_removes_exactly_the_slot(
    s: Seq<MeetingView>,
    day: Weekday,
    start: (u32, u32),
    end: (u32, u32),
    onetime: bool,
)
    ensures
        ({
            let r = swap_remove_all(s, slot_indices(s, day, start, end, onetime));
            &&& forall|x: MeetingView|
                #[trigger] r.to_multiset().count(x) == if x.day == day && x.start == start && x.end
                    == end && x.onetime == onetime {
                    0
                } else {
                    s.to_multiset().count(x)
                }
            &&& r.len() + slot_indices(s, day, start, end, onetime).len() == s.len()
        }),
{
    law_remove_matching_keeps_the_rest(s, day, start, end, onetime);
    lemma_outside_slot_counts(s, day, start, end, onetime);
}

/// When a notice may be posted at moment `now`: an alert only on the
/// meeting's own day, in the hour before its start (hour 0 for a meeting
/// starting in hour 0) and at or after its start minute; a notice for
/// tomorrow only on the day before the meeting's day, from 9 o'clock.
spec fn notice_in_time(n: NoticeView, now: Moment) -> bool {
    match n {
        NoticeView::Meeting(m) => m.day == now.weekday && (now.hour + 1 == m.start.0 || (m.start.0
            == 0 && now.hour == 0)) && now.minute >= m.start.1,
        NoticeView::DayBefore(m) => (day_index(now.weekday) + 1) % 7 == day_index(m.day) && now.hour
            >= 9,
    }
}

proof fn lemma_round_notices_in_time(init: RoundState, n: nat, now: Moment, stamps: Seq<Option<i64>>)
    requires
        n <= init.schedule.len(),
        init.notices.len() == 0,
    ensures
        forall|k: int|
            0 <= k < round_upto(init, n, now, stamps).notices.len() ==> notice_in_time(
                #[trigger] round_upto(init, n, now, stamps).notices[k],
                now,
            ),
    decreases n,
{
    if n > 0 {
        lemma_round_notices_in_time(init, (n - 1) as nat, now, stamps);
        lemma_round_keys_grow(init, (n - 1) as nat, now, stamps);
        let p = round_upto(init, (n - 1) as nat, now, stamps);
        let q = round_upto(init, n, now, stamps);
        assert forall|k: int| 0 <= k < q.notices.len() implies notice_in_time(#[trigger] q.notices[k], now) by {
            if k < p.notices.len() {
                assert(q.notices[k] == p.notices[k]);
            }
        }
    }
}

/// Every notice of an announcement round is posted in its time (see
/// `notice_in_time`): no alert goes out on another day than the meeting's,
/// or outside the hour before it; no notice for tomorrow goes out on another
/// day than the day before, or before 9 o'clock.
pub proof fn law_round_posts_only_in_time(v: ManagerView, now: Moment, stamps: Seq<Option<i64>>)
    ensures
        ({
            let st = round_result(v, now, stamps);
            forall|k: int|
                0 <= k < st.notices.len() ==> match #[trigger] st.notices[k] {
                    NoticeView::Meeting(m) => m.day == now.weekday && (now.hour + 1 == m.start.0 || (
                    m.start.0 == 0 && now.hour == 0)) && now.minute >= m.start.1,
                    NoticeView::DayBefore(m) => (day_index(now.weekday) + 1) % 7 == day_index(m.day)
                        && now.hour >= 9,
                }
        }),
{
    lemma_round_notices_in_time(round_start(v), v.schedule.len(), now, stamps);
}

/// The meeting chosen as the next to come starts no later than any other:
/// no meeting whose start is a clock time has its next start (days ahead,
/// then hour, then minute) strictly before the chosen one's, and of meetings
/// that start at the same moment the first listed is chosen. Nothing is
/// chosen only when no meeting's start is a clock time.
pub proof fn law_closest_meeting_starts_first(s: Seq<MeetingView>, now: Moment, r: Option<ScheduledMeeting>)
    requires
        is_soonest(s, now, r),
    ensures
        r is None ==> forall|j: int| 0 <= j < s.len() ==> !((#[trigger] s[j]).start.0 < 24 && s[j].start.1 < 60),
        r matches Some(m) ==> exists|i: int|
            0 <= i < s.len() && #[trigger] s[i] == m@ && m@.start.0 < 24 && m@.start.1 < 60 && forall|j: int|
                0 <= j < s.len() && (#[trigger] s[j]).start.0 < 24 && s[j].start.1 < 60 ==> ({
                    let a = next_occurrence(m@, now);
                    let b = next_occurrence(s[j], now);
                    let da = a.days_ahead + a.then_add_days;
                    let db = b.days_ahead + b.then_add_days;
                    &&& !(db < da || (db == da && (b.hour < a.hour || (b.hour == a.hour && b.minute
                        < a.minute))))
                    &&& (j < i ==> (da < db || (da == db && (a.hour < b.hour || (a.hour == b.hour
                        && a.minute < b.minute)))))
                }),
{
    if let Some(m) = r {
        let i = choose|i: int|
            0 <= i < s.len() && #[trigger] s[i] == m@ && valid_clock(m@.start) && (forall|j: int|
                0 <= j < s.len() && valid_clock((#[trigger] s[j]).start) ==> wait_for(m@, now)
                    <= wait_for(s[j], now)) && (forall|j: int|
                0 <= j < i && valid_clock((#[trigger] s[j]).start) ==> wait_for(m@, now) < wait_for(
                    s[j],
                    now,
                ));
        assert forall|j: int|
            0 <= j < s.len() && (#[trigger] s[j]).start.0 < 24 && s[j].start.1 < 60 implies ({
                let a = next_occurrence(m@, now);
                let b = next_occurrence(s[j], now);
                let da = a.days_ahead + a.then_add_days;
                let db = b.days_ahead + b.then_add_days;
                &&& !(db < da || (db == da && (b.hour < a.hour || (b.hour == a.hour && b.minute
                    < a.minute))))
                &&& (j < i ==> (da < db || (da == db && (a.hour < b.hour || (a.hour == b.hour
                    && a.minute < b.minute)))))
            }) by {
            assert(valid_clock(s[j].start));
            assert(wait_for(m@, now) <= wait_for(s[j], now));
        }
        assert(s[i] == m@);
    }
}

/// Notice `n` is about the meeting at some position of `s`, as it stood
/// there: an alert carries that meeting (note included) with its day-before
/// flag cleared; a notice for tomorrow carries it with the flag set, and the
/// flag was clear.
spec fn notice_from(n: NoticeView, s: Seq<MeetingView>) -> bool {
    exists|i: int|
        0 <= i < s.len() && match n {
            NoticeView::Meeting(m) => m == MeetingView { day_before_announced: false, ..#[trigger] s[i] },
            NoticeView::DayBefore(m) => !s[i].day_before_announced && m == MeetingView {
                day_before_announced: true,
                ..s[i]
            },
        }
}

proof fn lemma_round_notices_from_schedule(init: RoundState, n: nat, now: Moment, stamps: Seq<Option<i64>>)
    requires
        n <= init.schedule.len(),
        init.notices.len() == 0,
    ensures
        forall|j: int| n <= j < init.schedule.len() ==> #[trigger] round_upto(init, n, now, stamps).schedule[j] == init.schedule[j],
        forall|k: int|
            0 <= k < round_upto(init, n, now, stamps).notices.len() ==> notice_from(
                #[trigger] round_upto(init, n, now, stamps).notices[k],
                init.schedule,
            ),
    decreases n,
{
    if n > 0 {
        lemma_round_notices_from_schedule(init, (n - 1) as nat, now, stamps);
        lemma_round_keys_grow(init, (n - 1) as nat, now, stamps);
        let p = round_upto(init, (n - 1) as nat, now, stamps);
        let q = round_upto(init, n, now, stamps);
        let i = n - 1;
        assert(p.schedule[i] == init.schedule[i]);
        assert forall|k: int| 0 <= k < q.notices.len() implies notice_from(#[trigger] q.notices[k], init.schedule) by {
            if k < p.notices.len() {
                assert(q.notices[k] == p.notices[k]);
            } else {
                let w = init.schedule[i];
                match q.notices[k] {
                    NoticeView::Meeting(m) => {
                        assert(m == MeetingView { day_before_announced: false, ..init.schedule[i] });
                    },
                    NoticeView::DayBefore(m) => {
                        assert(!init.schedule[i].day_before_announced && m == MeetingView {
                            day_before_announced: true,
                            ..init.schedule[i]
                        });
                    },
                }
            }
        }
    }
}

/// Every notice of an announcement round is about a meeting on the schedule
/// as the round found it: an alert carries that meeting, its note included;
/// a notice for tomorrow goes out only for a meeting whose notice had not
/// gone out yet.
pub proof fn law_round_notices_come_from_the_schedule(v: ManagerView, now: Moment, stamps: Seq<Option<i64>>)
    ensures
        ({
            let st = round_result(v, now, stamps);
            forall|k: int|
                #![trigger st.notices[k]]
                0 <= k < st.notices.len() ==> exists|i: int|
                    #![trigger v.schedule[i]]
                    0 <= i < v.schedule.len() && match st.notices[k] {
                        NoticeView::Meeting(m) => m == MeetingView {
                            day_before_announced: false,
                            ..v.schedule[i]
                        },
                        NoticeView::DayBefore(m) => !v.schedule[i].day_before_announced && m
                            == MeetingView { day_before_announced: true, ..v.schedule[i] },
                    }
        }),
{
    lemma_round_notices_from_schedule(round_start(v), v.schedule.len(), now, stamps);
    let st = round_result(v, now, stamps);
    assert forall|k: int| #![trigger st.notices[k]] 0 <= k < st.notices.len() implies exists|i: int|
        #![trigger v.schedule[i]]
        0 <= i < v.schedule.len() && match st.notices[k] {
            NoticeView::Meeting(m) => m == MeetingView { day_before_announced: false, ..v.schedule[i] },
            NoticeView::DayBefore(m) => !v.schedule[i].day_before_announced && m == MeetingView {
                day_before_announced: true,
                ..v.schedule[i]
            },
        } by {
        assert(notice_from(st.notices[k], round_start(v).schedule));
        let i = choose|i: int|
            0 <= i < v.schedule.len() && match st.notices[k] {
                NoticeView::Meeting(m) => m == MeetingView { day_before_announced: false, ..#[trigger] v.schedule[i] },
                NoticeView::DayBefore(m) => !v.schedule[i].day_before_announced && m == MeetingView {
                    day_before_announced: true,
                    ..v.schedule[i]
                },
            };
        assert(v.schedule[i] == v.schedule[i]);
    }
}

proof fn lemma_round_new_keys_announced(init: RoundState, n: nat, now: Moment, stamps: Seq<Option<i64>>)
    requires
        n <= init.schedule.len(),
    ensures
        forall|u: u128|
            #[trigger] round_upto(init, n, now, stamps).suspended.contains_key(u) && !init.suspended.contains_key(u)
                ==> round_upto(init, n, now, stamps).suspended[u].reason == SuspendReason::AlreadyAnnounced,
    decreases n,
{
    if n > 0 {
        lemma_round_new_keys_announced(init, (n - 1) as nat, now, stamps);
        lemma_round_keys_grow(init, (n - 1) as nat, now, stamps);
    }
}

/// After a round that did not stop, every weekly meeting it announced is
/// suspended as announced (not as called off), so that it stays quiet until
/// its end.
pub proof fn law_round_suspends_as_announced(v: ManagerView, now: Moment, stamps: Seq<Option<i64>>)
    ensures
        ({
            let st = round_result(v, now, stamps);
            st.stopped is None ==> forall|k: int|
                0 <= k < st.notices.len() ==> match #[trigger] st.notices[k] {
                    NoticeView::Meeting(m) => !m.onetime ==> st.suspended.contains_key(m.uuid)
                        && st.suspended[m.uuid].reason == SuspendReason::AlreadyAnnounced,
                    NoticeView::DayBefore(_) => true,
                }
        }),
{
    law_round_suspends_what_it_announced(v, now, stamps);
    law_round_skips_suspended(v, now, stamps);
    lemma_round_new_keys_announced(round_start(v), v.schedule.len(), now, stamps);
    let st = round_result(v, now, stamps);
    assert forall|k: int| st.stopped is None && 0 <= k < st.notices.len() implies match #[trigger] st.notices[k] {
        NoticeView::Meeting(m) => !m.onetime ==> st.suspended.contains_key(m.uuid)
            && st.suspended[m.uuid].reason == SuspendReason::AlreadyAnnounced,
        NoticeView::DayBefore(_) => true,
    } by {
        if let NoticeView::Meeting(m) = st.notices[k] {
            assert(!v.suspended.contains_key(m.uuid));
            assert(round_start(v).suspended == v.suspended);
        }
    }
}

/// The meetings of a day are exactly the schedule's meetings on that day, in
/// schedule order; those that calling off a day applies to are exactly the
/// weekly ones among them.
pub proof fn law_day_lists_are_filters(s: Seq<MeetingView>, day: Weekday)
    ensures
        on_day(s, day) == s.filter(|m: MeetingView| m.day == day),
        weekly_on_day(s, day) == s.filter(|m: MeetingView| m.day == day && !m.onetime),
    decreases s.len(),
{
    reveal(Seq::filter);
    if s.len() > 0 {
        law_day_lists_are_filters(s.drop_last(), day);
    }
}

/// Adding a meeting is refused exactly when the schedule already holds one
/// on the same day, at the same place, with the same start and end and the
/// same one-time flag; its note, day-before flag and identifier play no part.
pub proof fn law_duplicate_is_same_day_place_and_times(s: Seq<MeetingView>, m: MeetingView)
    ensures
        (exists|i: int| 0 <= i < s.len() && same_meeting(#[trigger] s[i], m)) <==> (exists|i: int|
            0 <= i < s.len() && (#[trigger] s[i]).day == m.day && s[i].location == m.location
                && s[i].start == m.start && s[i].end == m.end && s[i].onetime == m.onetime),
{
}

/// A meeting added to the schedule is then on it, so adding the same meeting
/// again is refused.
pub proof fn law_add_twice_refused(s: Seq<MeetingView>, m: MeetingView)
    ensures
        exists|i: int| 0 <= i < s.push(m).len() && same_meeting(#[trigger] s.push(m)[i], m),
{
    assert(s.push(m)[s.len() as int] == m);
}

} // verus!
