use vstd::prelude::*;
use crate::model::{Activity, ActivityView, Transportation, TransportationView, activity_views, transportation_views};

verus! {

broadcast use vstd::std_specs::vec::axiom_spec_len;

/// Sum of the costs of `s`.
pub open spec fn activity_cost_sum(s: Seq<ActivityView>) -> int
    decreases s.len(),
{
    if s.len() == 0 {
        0
    } else {
        activity_cost_sum(s.drop_last()) + s.last().cost
    }
}

/// Sum of the durations of `s`.
pub open spec fn duration_sum(s: Seq<ActivityView>) -> int
    decreases s.len(),
{
    if s.len() == 0 {
        0
    } else {
        duration_sum(s.drop_last()) + s.last().duration
    }
}

/// Sum of the costs of `s`.
pub open spec fn transportation_cost_sum(s: Seq<TransportationView>) -> int
    decreases s.len(),
{
    if s.len() == 0 {
        0
    } else {
        transportation_cost_sum(s.drop_last()) + s.last().cost
    }
}

/// The summed cost of `v`.
pub fn total_activity_cost(v: &Vec<Activity>) -> (r: i128)
    ensures
        r == activity_cost_sum(activity_views(v@)),
        -(v@.len() as int) * 0x8000_0000_0000_0000 <= r <= (v@.len() as int) * 0x8000_0000_0000_0000,
{
    let ghost s = activity_views(v@);
    let mut total: i128 = 0;
    proof {
        assert(v@.len() == v.len());
    }
    let mut i: usize = 0;
    while i < v.len()
        invariant
            i <= v@.len() <= usize::MAX,
            s == activity_views(v@),
            total == activity_cost_sum(s.take(i as int)),
            -(i as int) * 0x8000_0000_0000_0000 <= total <= (i as int) * 0x8000_0000_0000_0000,
        decreases v.len() - i,
    {
        assert(s.take(i + 1).drop_last() =~= s.take(i as int));
        total = total + v[i].cost as i128;
        i += 1;
    }
    assert(s.take(i as int) =~= s);
    total
}

/// The summed duration of `v`, which holds at most `u32::MAX` activities so
/// that the sum fits.
pub fn total_activity_duration(v: &Vec<Activity>) -> (r: u64)
    requires
        v@.len() <= u32::MAX,
    ensures
        r == duration_sum(activity_views(v@)),
{
    let ghost s = activity_views(v@);
    let mut total: u64 = 0;
    let mut i: usize = 0;
    while i < v.len()
        invariant
            i <= v@.len() <= u32::MAX,
            s == activity_views(v@),
            total == duration_sum(s.take(i as int)),
            total <= (i as int) * 0xFFFF_FFFF,
        decreases v.len() - i,
    {
        assert(s.take(i + 1).drop_last() =~= s.take(i as int));
        total = total + v[i].duration as u64;
        i += 1;
    }
    assert(s.take(i as int) =~= s);
    total
}

/// The summed cost of `v`.
pub fn total_transportation_cost(v: &Vec<Transportation>) -> (r: i128)
    ensures
        r == transportation_cost_sum(transportation_views(v@)),
        -(v@.len() as int) * 0x8000_0000_0000_0000 <= r <= (v@.len() as int) * 0x8000_0000_0000_0000,
{
    let ghost s = transportation_views(v@);
    let mut total: i128 = 0;
    proof {
        assert(v@.len() == v.len());
    }
    let mut i: usize = 0;
    while i < v.len()
        invariant
            i <= v@.len() <= usize::MAX,
            s == transportation_views(v@),
            total == transportation_cost_sum(s.take(i as int)),
            -(i as int) * 0x8000_0000_0000_0000 <= total <= (i as int) * 0x8000_0000_0000_0000,
        decreases v.len() - i,
    {
        assert(s.take(i + 1).drop_last() =~= s.take(i as int));
        total = total + v[i].cost as i128;
        i += 1;
    }
    assert(s.take(i as int) =~= s);
    total
}

} // verus!
