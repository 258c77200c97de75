use vstd::prelude::*;

use crate::environment::Environment;
use crate::event::SellEvent;
use crate::plan::{grid, matrix_shaped};
use crate::BREAD_EXPIRATION;

verus! {

/// Bread bought on day `start` is fresh on day `i`.
pub open spec fn in_window(start: int, i: int) -> bool {
    start <= i < start + BREAD_EXPIRATION
}

/// The freshness matrix of a sequence of events over `n` days: row `p` marks the days on which
/// bread bought at event `p` is fresh.
pub open spec fn freshness(events: Seq<SellEvent>, n: int) -> Seq<Seq<bool>> {
    Seq::new(events.len(), |p: int| Seq::new(n as nat, |i: int| in_window(events[p].day as int, i)))
}

/// A row of `num_elts` days on which nothing is fresh.
pub fn generate_empty_availability_vec(num_elts: usize) -> (r: Vec<bool>)
    ensures
        r@ == Seq::new(num_elts as nat, |i: int| false),
{
    let mut r: Vec<bool> = Vec::new();
    let mut k: usize = 0;
    while k < num_elts
        invariant
            k <= num_elts,
            r@ == Seq::new(k as nat, |i: int| false),
        decreases num_elts - k,
    {
        r.push(false);
        k += 1;
        assert(r@ =~= Seq::new(k as nat, |i: int| false));
    }
    r
}

/// Marks fresh the days of the row that bread bought on day `start_idx` covers within a
/// calendar of `calendar_days` days; the row must hold those days, and may be of any length.
pub fn set_availability_at(a: &mut Vec<bool>, start_idx: usize, calendar_days: u32)
    requires
        start_idx >= calendar_days || start_idx + BREAD_EXPIRATION <= old(a)@.len()
            || calendar_days <= old(a)@.len(),
    ensures
        final(a)@ == Seq::new(
            old(a)@.len(),
            |i: int| old(a)@[i] || (in_window(start_idx as int, i) && i < calendar_days),
        ),
{
    let ghost before = a@;
    let n = calendar_days as usize;
    let limit: usize = if start_idx >= n || n - start_idx <= BREAD_EXPIRATION as usize {
        n
    } else {
        start_idx + BREAD_EXPIRATION as usize
    };
    let mut i: usize = start_idx;
    while i < limit
        invariant
            a@.len() == before.len(),
            start_idx >= limit || limit <= before.len(),
            limit <= calendar_days,
            limit == calendar_days || limit == start_idx + BREAD_EXPIRATION,
            limit <= start_idx + BREAD_EXPIRATION,
            start_idx <= i,
            i <= limit || i == start_idx,
            forall|j: int|
                0 <= j < before.len() ==> #[trigger] a@[j] == (before[j] || (start_idx <= j
                    < i)),
        decreases limit - i,
    {
        a.set(i, true);
        i += 1;
    }
    assert(a@ =~= Seq::new(
        before.len(),
        |j: int| before[j] || (in_window(start_idx as int, j) && j < calendar_days),
    ));
}

/// The freshness matrix of an environment over `calendar_days` days: provider `p` is fresh
/// exactly on the days that its sell event covers.
pub fn calculate_bread_availability(environment: &Environment, calendar_days: u32) -> (r: Vec<Vec<bool>>)
    requires
        environment.wf(),
    ensures
        matrix_shaped(r@, environment.providers@.len() as int, calendar_days as int),
        grid(r@) == freshness(environment.events(), calendar_days as int),
{
    let ghost events = environment.events();
    let ghost groups = environment.event_list@;
    let n = environment.providers.0.len();
    let mut cal: Vec<Vec<bool>> = Vec::new();
    let mut k: usize = 0;
    while k < n
        invariant
            k <= n == environment.providers@.len(),
            matrix_shaped(cal@, k as int, calendar_days as int),
            forall|p: int, i: int| 0 <= p < k && 0 <= i < calendar_days ==> !#[trigger] cal@[p]@[i],
        decreases n - k,
    {
        cal.push(generate_empty_availability_vec(calendar_days as usize));
        k += 1;
    }
    let mut g: usize = 0;
    proof {
        Environment::lemma_flatten_prefix(groups, 0);
    }
    while g < environment.event_list.len()
        invariant
            environment.wf(),
            events == environment.events(),
            groups == environment.event_list@,
            g <= groups.len(),
            n == environment.providers@.len(),
            matrix_shaped(cal@, n as int, calendar_days as int),
            forall|p: int, i: int|
                0 <= p < n && 0 <= i < calendar_days ==> #[trigger] cal@[p]@[i] == (p
                    < Environment::flatten(groups.take(g as int)).len() && in_window(
                    events[p].day as int,
                    i,
                )),
        decreases groups.len() - g,
    {
        let daily_events = &environment.event_list[g];
        let ghost done = Environment::flatten(groups.take(g as int)).len();
        proof {
            Environment::lemma_flatten_prefix(groups, g as int);
            Environment::lemma_flatten_prefix(groups, g + 1);
            assert(groups.take(g + 1).drop_last() =~= groups.take(g as int));
        }
        let mut j: usize = 0;
        while j < daily_events.events.len()
            invariant
                environment.wf(),
                events == environment.events(),
                groups == environment.event_list@,
                g < groups.len(),
                *daily_events == groups[g as int],
                done == Environment::flatten(groups.take(g as int)).len(),
                Environment::flatten(groups.take(g + 1)) == Environment::flatten(
                    groups.take(g as int),
                ) + daily_events.events@,
                Environment::flatten(groups.take(g + 1)).len() <= events.len(),
                Environment::flatten(groups.take(g + 1)) =~= events.take(
                    Environment::flatten(groups.take(g + 1)).len() as int,
                ),
                j <= daily_events.events@.len(),
                n == environment.providers@.len(),
                matrix_shaped(cal@, n as int, calendar_days as int),
                forall|p: int, i: int|
                    0 <= p < n && 0 <= i < calendar_days ==> #[trigger] cal@[p]@[i] == (p < done + j
                        && in_window(events[p].day as int, i)),
            decreases daily_events.events@.len() - j,
        {
            let single_event = daily_events.events[j];
            let ghost pos = done + j;
            proof {
                let whole = Environment::flatten(groups.take(g + 1));
                assert(whole[pos] == daily_events.events@[j as int]);
                assert(events.take(whole.len() as int)[pos] == events[pos]);
            }
            assert(events[pos] == single_event);
            assert(environment.providers@[pos] == single_event.price);
            let found = environment.providers.find_provider(single_event.price);
            match found {
                Some(pidx) => {
                    assert(pidx == pos);
                    set_availability_at(&mut cal[pidx], single_event.day as usize, calendar_days);
                    assert forall|p: int, i: int|
                        0 <= p < n && 0 <= i < calendar_days implies #[trigger] cal@[p]@[i] == (p
                            < done + j + 1 && in_window(events[p].day as int, i)) by {}
                },
                None => {
                    assert(environment.providers@[pos] == single_event.price);
                },
            }
            j += 1;
        }
        g += 1;
    }
    assert(groups.take(groups.len() as int) =~= groups);
    assert forall|p: int| 0 <= p < n implies #[trigger] grid(cal@)[p] =~= freshness(
        events,
        calendar_days as int,
    )[p] by {}
    assert(grid(cal@) =~= freshness(events, calendar_days as int));
    cal
}

} // verus!
