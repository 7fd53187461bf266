use vstd::prelude::*;

use crate::json::JsonValue;
use crate::text::{eq_ignore_ascii_case, same_ignoring_ascii_case};

verus! {

/// One weekday's availability toggle.
#[derive(Debug)]
pub struct ScheduleItem {
    pub day: String,
    pub active: bool,
}

/// A bookable profile: its identifier, its global availability flag, its
/// weekly schedule, and every other field it came with, kept as given.
#[derive(Debug)]
pub struct Monk {
    pub id: String,
    pub is_available: bool,
    pub schedule: Vec<ScheduleItem>,
    pub extra: Vec<(String, JsonValue)>,
}

/// Whether a schedule entry is about the day `day`, ignoring ASCII case.
pub open spec fn entry_is_for(e: ScheduleItem, day: Seq<char>) -> bool {
    same_ignoring_ascii_case(e.day@, day)
}

/// Whether the first entry of `schedule` that is about `day` exists and is active.
pub open spec fn active_on(schedule: Seq<ScheduleItem>, day: Seq<char>) -> bool {
    exists|i: int|
        0 <= i < schedule.len() && entry_is_for(#[trigger] schedule[i], day) && schedule[i].active
            && forall|j: int| 0 <= j < i ==> !entry_is_for(#[trigger] schedule[j], day)
}

/// Whether a profile can be booked on `day`: it must be available; an empty
/// day or an empty schedule asks nothing more; otherwise the schedule's entry
/// for that day decides, and a schedule without one excludes the profile.
pub open spec fn bookable(m: Monk, day: Seq<char>) -> bool {
    &&& m.is_available
    &&& (day.len() == 0 || m.schedule.len() == 0 || active_on(m.schedule@, day))
}

/// The profiles that [`filter_monks`] keeps for `day`, in their order.
pub open spec fn bookable_on(monks: Seq<Monk>, day: Seq<char>) -> Seq<Monk> {
    monks.filter(|m: Monk| bookable(m, day))
}

/// Whether the first entry of `schedule` for `day` is active.
fn scheduled_active(schedule: &Vec<ScheduleItem>, day: &str) -> (r: bool)
    ensures
        r == active_on(schedule@, day@),
{
    let mut i: usize = 0;
    while i < schedule.len()
        invariant
            i <= schedule.len(),
            forall|j: int| 0 <= j < i ==> !entry_is_for(#[trigger] schedule@[j], day@),
        decreases schedule.len() - i,
    {
        if eq_ignore_ascii_case(schedule[i].day.as_str(), day) {
            let r = schedule[i].active;
            assert(r ==> entry_is_for(schedule@[i as int], day@));
            return r;
        }
        i = i + 1;
    }
    false
}

/// Whether the profile `m` can be booked on `day_name`.
pub fn is_bookable(m: &Monk, day_name: &str) -> (r: bool)
    ensures
        r == bookable(*m, day_name@),
{
    if !m.is_available {
        return false;
    }
    if day_name.is_empty() || m.schedule.len() == 0 {
        return true;
    }
    scheduled_active(&m.schedule, day_name)
}

/// Keeps the profiles that can be booked on `day_name`, in their order and
/// with all their fields.
pub fn filter_monks(monks: Vec<Monk>, day_name: &str) -> (r: Vec<Monk>)
    ensures
        r@ == bookable_on(monks@, day_name@),
{
    let ghost all = monks@;
    let ghost keep = |m: Monk| bookable(m, day_name@);
    let mut rest = monks;
    let mut out: Vec<Monk> = Vec::new();
    let ghost mut done: int = 0;
    while rest.len() > 0
        invariant
            0 <= done <= all.len(),
            rest@ == all.subrange(done, all.len() as int),
            out@ == all.subrange(0, done).filter(keep),
            keep == (|m: Monk| bookable(m, day_name@)),
        decreases rest.len(),
    {
        let m = rest.remove(0);
        let hit = is_bookable(&m, day_name);
        proof {
            assert(all.subrange(0, done + 1).drop_last() =~= all.subrange(0, done));
            reveal(Seq::filter);
            done = done + 1;
        }
        if hit {
            out.push(m);
        }
    }
    assert(all.subrange(0, all.len() as int) =~= all);
    out
}

/// No profile whose availability flag is off is ever kept, whatever the day.
pub proof fn lemma_unavailable_never_kept(monks: Seq<Monk>, day: Seq<char>)
    ensures
        forall|i: int|
            0 <= i < bookable_on(monks, day).len() ==> (#[trigger] bookable_on(monks, day)[i]).is_available,
        forall|m: Monk| !m.is_available ==> !(#[trigger] bookable_on(monks, day).contains(m)),
{
    broadcast use vstd::seq_lib::group_filter_ensures;

}

/// With no day asked for, the filter keeps exactly the available profiles.
pub proof fn lemma_no_day_keeps_available(monks: Seq<Monk>)
    ensures
        bookable_on(monks, Seq::<char>::empty()) == monks.filter(|m: Monk| m.is_available),
{
    let day = Seq::<char>::empty();
    assert((|m: Monk| bookable(m, day)) =~= (|m: Monk| m.is_available));
}

/// An available profile with an empty schedule is kept, whatever the day.
pub proof fn lemma_no_schedule_always_kept(monks: Seq<Monk>, day: Seq<char>)
    ensures
        forall|i: int|
            0 <= i < monks.len() && monks[i].is_available && monks[i].schedule.len() == 0
                ==> bookable_on(monks, day).contains(#[trigger] monks[i]),
{
    broadcast use vstd::seq_lib::group_filter_ensures;

}

} // verus!
