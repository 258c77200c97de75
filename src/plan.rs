use vstd::prelude::*;

use crate::availability::{calculate_bread_availability, freshness, in_window};
use crate::environment::{
    event_prices, lemma_sorted_unique, make_environment, same_events, sorted_by_day, Environment,
};
use crate::event::SellEvent;
use crate::BbpError;
use crate::providers::{is_price_order, price_before, prices_distinct};
use crate::INITIAL_BREAD;

verus! {

/// `m` has `rows` rows of `days` entries each.
pub open spec fn matrix_shaped(m: Seq<Vec<bool>>, rows: int, days: int) -> bool {
    m.len() == rows && forall|p: int| 0 <= p < rows ==> #[trigger] m[p]@.len() == days
}

/// The rows of a freshness matrix as sequences.
pub open spec fn grid(m: Seq<Vec<bool>>) -> Seq<Seq<bool>> {
    m.map_values(|row: Vec<bool>| row@)
}

/// The first provider of `order` whose bread is fresh on `day`.
pub open spec fn first_fresh(m: Seq<Seq<bool>>, order: Seq<usize>, day: int) -> Option<usize>
    decreases order.len(),
{
    if order.len() == 0 {
        None
    } else if m[order[0] as int][day] {
        Some(order[0])
    } else {
        first_fresh(m, order.drop_first(), day)
    }
}

/// Among providers `0..k`, the fresh one on `day` with the lowest price, ties to the lowest index.
pub open spec fn cheapest_among(m: Seq<Seq<bool>>, prices: Seq<u32>, day: int, k: int) -> Option<usize>
    decreases k,
{
    if k <= 0 {
        None
    } else {
        let b = cheapest_among(m, prices, day, k - 1);
        if m[k - 1][day] && (b is None || prices[k - 1] < prices[b->0 as int]) {
            Some((k - 1) as usize)
        } else {
            b
        }
    }
}

/// The cheapest provider with fresh bread on `day`, if any.
pub open spec fn cheapest_fresh(m: Seq<Seq<bool>>, prices: Seq<u32>, day: int) -> Option<usize> {
    cheapest_among(m, prices, day, prices.len() as int)
}

/// The daily assignment: for each of the first `n` days, the cheapest fresh provider.
pub open spec fn cheapest_daily(m: Seq<Seq<bool>>, prices: Seq<u32>, n: int) -> Seq<Option<usize>> {
    Seq::new(n as nat, |d: int| cheapest_fresh(m, prices, d))
}

/// State of the plan compiler: the plan so far, the provider of the open run, the running quantity.
pub type PlanState = (Seq<Option<int>>, Option<usize>, int);

/// One day of the plan compiler.
pub open spec fn plan_step(s: PlanState, cur: Option<usize>) -> PlanState {
    let (plan, prev, acc) = s;
    match prev {
        Some(p) => match cur {
            Some(q) => if q == p {
                (plan, prev, acc + 1)
            } else {
                (plan.push(Some(acc)), cur, 1)
            },
            None => (plan.push(Some(acc)).push(None), None, acc + 1),
        },
        None => if acc < 0 {
            (plan, None, acc + 1)
        } else {
            match cur {
                Some(_) => (plan, cur, 1),
                None => (plan.push(None), None, acc),
            }
        },
    }
}

/// The plan compiler run over `daily`, starting from provider `seed` and the initial stock.
pub open spec fn plan_fold(seed: Option<usize>, daily: Seq<Option<usize>>) -> PlanState
    decreases daily.len(),
{
    if daily.len() == 0 {
        (Seq::empty(), seed, -(INITIAL_BREAD as int))
    } else {
        plan_step(plan_fold(seed, daily.drop_last()), daily.last())
    }
}

/// The purchase plan of a daily assignment: the fold seeded with the first day, then the open run.
pub open spec fn compiled_plan(daily: Seq<Option<usize>>) -> Seq<Option<int>> {
    let s = plan_fold(if daily.len() > 0 { daily[0] } else { None }, daily);
    match s.1 {
        Some(_) => s.0.push(Some(s.2)),
        None => s.0,
    }
}

pub open spec fn qty_view(o: Option<u32>) -> Option<int> {
    match o {
        Some(q) => Some(q as int),
        None => None,
    }
}

/// A purchase plan with its quantities as integers.
pub open spec fn plan_view(p: Seq<Option<u32>>) -> Seq<Option<int>> {
    p.map_values(|o: Option<u32>| qty_view(o))
}

/// Sum of the quantities ordered by a plan.
pub open spec fn ordered_total(p: Seq<Option<int>>) -> int
    decreases p.len(),
{
    if p.len() == 0 {
        0
    } else {
        ordered_total(p.drop_last()) + match p.last() {
            Some(q) => q,
            None => 0,
        }
    }
}

/// Number of stale days in a plan.
pub open spec fn stale_days(p: Seq<Option<int>>) -> int
    decreases p.len(),
{
    if p.len() == 0 {
        0
    } else {
        stale_days(p.drop_last()) + if p.last() is None { 1int } else { 0 }
    }
}

proof fn lemma_plan_view_push(p: Seq<Option<u32>>, o: Option<u32>)
    ensures
        plan_view(p.push(o)) == plan_view(p).push(qty_view(o)),
{
    assert(plan_view(p.push(o)) =~= plan_view(p).push(qty_view(o)));
}

proof fn lemma_first_fresh_spec(m: Seq<Seq<bool>>, order: Seq<usize>, day: int)
    ensures
        match first_fresh(m, order, day) {
            Some(p) => exists|i: int|
                0 <= i < order.len() && order[i] == p && m[p as int][day] && forall|j: int|
                    0 <= j < i ==> !#[trigger] m[order[j] as int][day],
            None => forall|i: int| 0 <= i < order.len() ==> !#[trigger] m[order[i] as int][day],
        },
    decreases order.len(),
{
    if order.len() > 0 {
        let rest = order.drop_first();
        lemma_first_fresh_spec(m, rest, day);
        if !m[order[0] as int][day] {
            match first_fresh(m, rest, day) {
                Some(p) => {
                    let i = choose|i: int|
                        0 <= i < rest.len() && rest[i] == p && m[p as int][day] && forall|j: int|
                            0 <= j < i ==> !#[trigger] m[rest[j] as int][day];
                    assert(order[i + 1] == p);
                    assert forall|j: int| 0 <= j < i + 1 implies !#[trigger] m[order[j] as int][day] by {
                        if j > 0 {
                            assert(order[j] == rest[j - 1]);
                        }
                    }
                },
                None => {
                    assert forall|i: int| 0 <= i < order.len() implies !#[trigger] m[order[i] as int][day] by {
                        if i > 0 {
                            assert(order[i] == rest[i - 1]);
                        }
                    }
                },
            }
        }
    }
}

proof fn lemma_cheapest_among_spec(m: Seq<Seq<bool>>, prices: Seq<u32>, day: int, k: int)
    requires
        0 <= k <= prices.len() <= usize::MAX,
    ensures
        match cheapest_among(m, prices, day, k) {
            Some(b) => b < k && m[b as int][day] && forall|q: int|
                0 <= q < k && #[trigger] m[q][day] && q != b ==> price_before(prices, b, q as usize),
            None => forall|q: int| 0 <= q < k ==> !#[trigger] m[q][day],
        },
    decreases k,
{
    if k > 0 {
        lemma_cheapest_among_spec(m, prices, day, k - 1);
        let prev = cheapest_among(m, prices, day, k - 1);
        if m[k - 1][day] && (prev is None || prices[k - 1] < prices[prev->0 as int]) {
            assert forall|q: int|
                0 <= q < k && #[trigger] m[q][day] && q != k - 1 implies price_before(
                prices,
                (k - 1) as usize,
                q as usize,
            ) by {
                let b = prev->0;
                if q != b {
                    assert(price_before(prices, b, q as usize));
                }
            }
        } else if prev is Some {
            let b = prev->0;
            assert forall|q: int| 0 <= q < k && #[trigger] m[q][day] && q != b implies price_before(
                prices,
                b,
                q as usize,
            ) by {
                if q < k - 1 {
                    assert(price_before(prices, b, q as usize));
                }
            }
        }
    }
}

/// In price order, the first provider with fresh bread is the cheapest provider with fresh bread.
pub proof fn lemma_first_fresh_is_cheapest(
    m: Seq<Seq<bool>>,
    prices: Seq<u32>,
    order: Seq<usize>,
    day: int,
)
    requires
        is_price_order(prices, order),
        prices.len() <= usize::MAX,
    ensures
        first_fresh(m, order, day) == cheapest_fresh(m, prices, day),
{
    lemma_first_fresh_spec(m, order, day);
    lemma_cheapest_among_spec(m, prices, day, prices.len() as int);
    match first_fresh(m, order, day) {
        Some(p) => {
            let i = choose|i: int|
                0 <= i < order.len() && order[i] == p && m[p as int][day] && forall|j: int|
                    0 <= j < i ==> !#[trigger] m[order[j] as int][day];
            match cheapest_fresh(m, prices, day) {
                Some(b) => {
                    if b != p {
                        assert(order.contains(b));
                        let ib = choose|ib: int| 0 <= ib < order.len() && order[ib] == b;
                        assert(!(ib < i));
                        assert(ib != i);
                        assert(price_before(prices, order[i], order[ib]));
                        assert(price_before(prices, b, p));
                    }
                },
                None => {
                    assert(m[p as int][day]);
                },
            }
        },
        None => {
            match cheapest_fresh(m, prices, day) {
                Some(b) => {
                    assert(order.contains(b));
                    let ib = choose|ib: int| 0 <= ib < order.len() && order[ib] == b;
                    assert(m[order[ib] as int][day]);
                },
                None => {},
            }
        },
    }
}

/// The first provider of `prov_list` whose bread is fresh on `day_num`; `None` means stale bread.
pub fn cheapest_bread_for_day(avail_matrix: &Vec<Vec<bool>>, prov_list: &Vec<usize>, day_num: u32) -> (r:
    Option<usize>)
    requires
        forall|k: int|
            0 <= k < prov_list@.len() ==> #[trigger] prov_list@[k] < avail_matrix@.len()
                && day_num < avail_matrix@[prov_list@[k] as int]@.len(),
    ensures
        r == first_fresh(grid(avail_matrix@), prov_list@, day_num as int),
        r matches Some(p) ==> p < avail_matrix@.len() && avail_matrix@[p as int]@[day_num as int],
{
    let ghost m = grid(avail_matrix@);
    let ghost order = prov_list@;
    let mut k: usize = 0;
    assert(order.subrange(0, order.len() as int) =~= order);
    while k < prov_list.len()
        invariant
            k <= order.len(),
            m == grid(avail_matrix@),
            order == prov_list@,
            forall|j: int|
                0 <= j < order.len() ==> #[trigger] order[j] < avail_matrix@.len() && day_num
                    < avail_matrix@[order[j] as int]@.len(),
            first_fresh(m, order, day_num as int) == first_fresh(
                m,
                order.subrange(k as int, order.len() as int),
                day_num as int,
            ),
        decreases order.len() - k,
    {
        let pidx = prov_list[k];
        assert(order.subrange(k as int, order.len() as int).drop_first() =~= order.subrange(
            k + 1,
            order.len() as int,
        ));
        if avail_matrix[pidx][day_num as usize] {
            return Some(pidx);
        }
        k += 1;
    }
    None
}

/// For each day of the calendar, the first provider of `prov_list` with fresh bread.
pub fn daily_assignment(avail_matrix: &Vec<Vec<bool>>, prov_list: &Vec<usize>, total_days: u32) -> (r: Vec<
    Option<usize>,
>)
    requires
        forall|k: int|
            0 <= k < prov_list@.len() ==> #[trigger] prov_list@[k] < avail_matrix@.len()
                && total_days <= avail_matrix@[prov_list@[k] as int]@.len(),
    ensures
        r@ == Seq::new(total_days as nat, |d: int| first_fresh(grid(avail_matrix@), prov_list@, d)),
{
    let mut r: Vec<Option<usize>> = Vec::new();
    let mut day: u32 = 0;
    while day < total_days
        invariant
            day <= total_days,
            forall|k: int|
                0 <= k < prov_list@.len() ==> #[trigger] prov_list@[k] < avail_matrix@.len()
                    && total_days <= avail_matrix@[prov_list@[k] as int]@.len(),
            r@ == Seq::new(day as nat, |d: int| first_fresh(grid(avail_matrix@), prov_list@, d)),
        decreases total_days - day,
    {
        let p = cheapest_bread_for_day(avail_matrix, prov_list, day);
        r.push(p);
        day += 1;
        assert(r@ =~= Seq::new(day as nat, |d: int| first_fresh(grid(avail_matrix@), prov_list@, d)));
    }
    r
}

/// Turns a daily assignment into a purchase plan: one order per run of days served by one
/// provider, and `None` for each day with no fresh bread once the initial stock is eaten.
pub fn compile_plan(daily: &Vec<Option<usize>>) -> (r: Vec<Option<u32>>)
    requires
        daily@.len() <= u32::MAX,
        daily@.len() > 0 ==> daily@[0] is None,
    ensures
        plan_view(r@) == compiled_plan(daily@),
{
    let ghost d = daily@;
    let ghost seed: Option<usize> = if d.len() > 0 { d[0] } else { None };
    let n = daily.len();
    let mut solution: Vec<Option<u32>> = Vec::new();
    let mut previous: Option<usize> = if n > 0 { daily[0] } else { None };
    let mut qty_accum: i64 = 0 - INITIAL_BREAD as i64;
    let mut counter: usize = 0;
    assert(d.take(0) =~= Seq::<Option<usize>>::empty());
    assert(plan_view(solution@) =~= Seq::<Option<int>>::empty());
    while counter < n
        invariant
            n == d.len(),
            d == daily@,
            n <= u32::MAX,
            seed is None,
            counter <= n,
            plan_fold(seed, d.take(counter as int)) == (plan_view(solution@), previous, qty_accum as int),
            -(INITIAL_BREAD as int) <= qty_accum <= counter,
            previous is Some ==> qty_accum >= 1,
        decreases n - counter,
    {
        let ghost before = solution@;
        assert(d.take(counter + 1).drop_last() =~= d.take(counter as int));
        let cur = daily[counter];
        match previous {
            Some(prev_prov) => {
                match cur {
                    Some(min_prov) => {
                        if min_prov != prev_prov {
                            solution.push(Some(qty_accum as u32));
                            proof {
                                lemma_plan_view_push(before, Some(qty_accum as u32));
                            }
                            qty_accum = 0;
                        }
                    },
                    None => {
                        solution.push(Some(qty_accum as u32));
                        solution.push(None);
                        proof {
                            lemma_plan_view_push(before, Some(qty_accum as u32));
                            lemma_plan_view_push(before.push(Some(qty_accum as u32)), None);
                        }
                    },
                }
                qty_accum += 1;
                previous = cur;
            },
            None => {
                if qty_accum < 0 {
                    qty_accum += 1;
                } else {
                    match cur {
                        Some(_) => {
                            qty_accum = 1;
                        },
                        None => {
                            solution.push(None);
                            proof {
                                lemma_plan_view_push(before, None);
                            }
                        },
                    }
                    previous = cur;
                }
            },
        }
        counter += 1;
    }
    assert(d.take(n as int) =~= d);
    if previous.is_some() {
        let ghost before = solution@;
        solution.push(Some(qty_accum as u32));
        proof {
            lemma_plan_view_push(before, Some(qty_accum as u32));
        }
    }
    solution
}

/// Computes the purchase plan of an environment whose freshness matrix covers at least
/// `total_days` days:
/// each day goes to the cheapest provider with fresh bread, and each run becomes one order.
pub fn solve(total_days: u32, environment: &Environment) -> (r: Vec<Option<u32>>)
    requires
        total_days >= 1,
        environment.event_list@.len() > 0,
        environment.avail_matrix@.len() == environment.providers@.len(),
        forall|p: int|
            0 <= p < environment.providers@.len() ==> #[trigger] environment.avail_matrix@[p]@.len()
                >= total_days,
        forall|p: int|
            0 <= p < environment.providers@.len() ==> !#[trigger] environment.avail_matrix@[p]@[0],
    ensures
        plan_view(r@) == compiled_plan(
            cheapest_daily(grid(environment.avail_matrix@), environment.providers@, total_days as int),
        ),
{
    let ghost m = grid(environment.avail_matrix@);
    let ghost prices = environment.providers@;
    let provider_count = environment.providers.0.len();
    let providers = environment.providers.sort_by_price();
    let minimum_providers = daily_assignment(&environment.avail_matrix, &providers, total_days);
    proof {
        assert(prices.len() == provider_count);
        assert forall|d: int| 0 <= d < total_days implies first_fresh(m, providers@, d)
            == cheapest_fresh(m, prices, d) by {
            lemma_first_fresh_is_cheapest(m, prices, providers@, d);
        }
        assert(minimum_providers@ =~= cheapest_daily(m, prices, total_days as int));
        lemma_first_fresh_spec(m, providers@, 0);
    }
    compile_plan(&minimum_providers)
}

/// Every day assigned to a provider is a day on which that provider's bread is fresh.
pub proof fn lemma_assignment_is_fresh(m: Seq<Seq<bool>>, prices: Seq<u32>, n: int, day: int)
    requires
        prices.len() <= usize::MAX,
        0 <= day < n,
    ensures
        cheapest_daily(m, prices, n)[day] matches Some(p) ==> p < prices.len() && m[p as int][day],
{
    lemma_cheapest_among_spec(m, prices, day, prices.len() as int);
}

/// A provider assigned to a day is never undercut: no cheaper provider is fresh that day.
pub proof fn lemma_assignment_is_cheapest(m: Seq<Seq<bool>>, prices: Seq<u32>, n: int, day: int)
    requires
        prices.len() <= usize::MAX,
        0 <= day < n,
    ensures
        cheapest_daily(m, prices, n)[day] matches Some(p) ==> forall|q: int|
            0 <= q < prices.len() && prices[q] < prices[p as int] ==> !#[trigger] m[q][day],
{
    lemma_cheapest_among_spec(m, prices, day, prices.len() as int);
}

/// Days of the plan compiler not yet written into the plan: the open run, or the stock still
/// to be eaten (as a negative count).
pub open spec fn pending_days(s: PlanState) -> int {
    match s.1 {
        Some(_) => s.2,
        None => if s.2 < 0 { s.2 } else { 0 },
    }
}

proof fn lemma_fold_accounts(daily: Seq<Option<usize>>)
    ensures
        ({
            let s = plan_fold(None, daily);
            &&& ordered_total(s.0) + stale_days(s.0) + pending_days(s) + INITIAL_BREAD == daily.len()
            &&& s.1 is Some ==> s.2 >= 1
            &&& s.2 < 0 ==> s.1 is None && s.2 == daily.len() - INITIAL_BREAD
        }),
    decreases daily.len(),
{
    if daily.len() > 0 {
        lemma_fold_accounts(daily.drop_last());
        let s = plan_fold(None, daily.drop_last());
        let p = s.0;
        let x = Some(s.2);
        assert(p.push(x).drop_last() =~= p);
        assert(p.push(None).drop_last() =~= p);
        assert(p.push(x).push(None).drop_last() =~= p.push(x));
        assert(ordered_total(p.push(x)) == ordered_total(p) + s.2);
        assert(stale_days(p.push(x)) == stale_days(p));
        assert(ordered_total(p.push(None)) == ordered_total(p));
        assert(stale_days(p.push(None)) == stale_days(p) + 1);
        assert(ordered_total(p.push(x).push(None)) == ordered_total(p) + s.2);
        assert(stale_days(p.push(x).push(None)) == stale_days(p) + 1);
        assert(plan_fold(None, daily) == plan_step(s, daily.last()));
    }
}

/// Every day is paid for once: by the initial stock, by a unit of an order, or as a stale day,
/// provided the calendar outlasts the initial stock and day zero has no fresh bread.
pub proof fn lemma_plan_conserves_days(daily: Seq<Option<usize>>)
    requires
        daily.len() >= INITIAL_BREAD,
        daily[0] is None,
    ensures
        ordered_total(compiled_plan(daily)) + INITIAL_BREAD == daily.len() - stale_days(
            compiled_plan(daily),
        ),
{
    lemma_fold_accounts(daily);
    let s = plan_fold(None, daily);
    assert(s.0.push(Some(s.2)).drop_last() =~= s.0);
}

/// The purchase plan of events sorted by day and price over a calendar of `n` days.
pub open spec fn bread_plan(sorted: Seq<SellEvent>, n: int) -> Seq<Option<int>> {
    compiled_plan(cheapest_daily(freshness(sorted, n), event_prices(sorted), n))
}

/// Computes the cheapest purchase plan for a calendar of `total_days` days and a set of sell
/// events, in any order.
pub fn plan_purchases(total_days: u32, events: Vec<SellEvent>) -> (r: Result<Vec<Option<u32>>, BbpError>)
    ensures
        total_days == 0 ==> r == Err::<Vec<Option<u32>>, BbpError>(BbpError::ZeroCalendarDays),
        total_days > 0 && events@.len() == 0 ==> r == Err::<Vec<Option<u32>>, BbpError>(
            BbpError::EmptyCalendar,
        ),
        total_days > 0 && events@.len() > 0 && (exists|i: int|
            0 <= i < events@.len() && #[trigger] events@[i].day == 0) ==> r == Err::<
            Vec<Option<u32>>,
            BbpError,
        >(BbpError::ZeroDay),
        total_days > 0 && events@.len() > 0 && (forall|i: int|
            0 <= i < events@.len() ==> #[trigger] events@[i].day > 0) && !prices_distinct(
            event_prices(events@),
        ) ==> r == Err::<Vec<Option<u32>>, BbpError>(BbpError::DuplicateProvider),
        r is Ok <==> total_days > 0 && events@.len() > 0 && (forall|i: int|
            0 <= i < events@.len() ==> #[trigger] events@[i].day > 0) && prices_distinct(
            event_prices(events@),
        ),
        r matches Ok(plan) ==> forall|s: Seq<SellEvent>|
            sorted_by_day(s) && same_events(s, events@) ==> plan_view(plan@) == #[trigger] bread_plan(
                s,
                total_days as int,
            ),
{
    if total_days == 0 {
        return Err(BbpError::ZeroCalendarDays);
    }
    if events.len() == 0 {
        return Err(BbpError::EmptyCalendar);
    }
    let mut i: usize = 0;
    while i < events.len()
        invariant
            total_days > 0,
            events@.len() > 0,
            i <= events@.len(),
            forall|j: int| 0 <= j < i ==> #[trigger] events@[j].day > 0,
        decreases events@.len() - i,
    {
        if events[i].day == 0 {
            return Err(BbpError::ZeroDay);
        }
        i += 1;
    }
    let ghost given = events@;
    let mut environment = match make_environment(events) {
        Ok(env) => env,
        Err(e) => {
            return Err(e);
        },
    };
    let matrix = calculate_bread_availability(&environment, total_days);
    environment.avail_matrix = matrix;
    let ghost ev = environment.events();
    proof {
        broadcast use vstd::seq_lib::group_to_multiset_ensures;

        assert forall|p: int| 0 <= p < environment.providers@.len() implies !#[trigger] environment.avail_matrix@[p]@[0] by {
            assert(grid(environment.avail_matrix@)[p] == environment.avail_matrix@[p]@);
            assert(ev.contains(ev[p]));
            assert(ev.to_multiset().count(ev[p]) > 0);
            assert(given.contains(ev[p]));
            assert(!in_window(ev[p].day as int, 0));
        }
    }
    let plan = solve(total_days, &environment);
    proof {
        assert forall|s: Seq<SellEvent>|
            sorted_by_day(s) && same_events(s, given) implies plan_view(plan@) == #[trigger] bread_plan(
            s,
            total_days as int,
        ) by {
            lemma_sorted_unique(ev, s);
            assert(environment.providers@ =~= event_prices(ev));
        }
    }
    Ok(plan)
}

/// Reordering the sell events never changes the purchase plan: any two orderings of one set of
/// events sort to the same sequence, and so give the same plan.
pub proof fn lemma_plan_ignores_event_order(
    a: Seq<SellEvent>,
    b: Seq<SellEvent>,
    sorted_a: Seq<SellEvent>,
    sorted_b: Seq<SellEvent>,
    n: int,
)
    requires
        same_events(a, b),
        sorted_by_day(sorted_a),
        same_events(sorted_a, a),
        sorted_by_day(sorted_b),
        same_events(sorted_b, b),
    ensures
        bread_plan(sorted_a, n) == bread_plan(sorted_b, n),
{
    lemma_sorted_unique(sorted_a, sorted_b);
}

} // verus!
