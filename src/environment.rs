use vstd::prelude::*;

use crate::event::{EventList, SellEvent};
use crate::providers::{prices_distinct, Providers};
use crate::BbpError;

verus! {

/// The sell events grouped by day, the providers they define, and the freshness matrix.
#[derive(Debug, Clone, PartialEq, Eq)]
pub struct Environment {
    pub event_list: Vec<EventList>,
    pub providers: Providers,
    pub avail_matrix: Vec<Vec<bool>>,
}

impl Environment {
    /// The events of all groups, in group order.
    pub open spec fn flatten(groups: Seq<EventList>) -> Seq<SellEvent>
        decreases groups.len(),
    {
        if groups.len() == 0 {
            Seq::empty()
        } else {
            Self::flatten(groups.drop_last()) + groups.last().events@
        }
    }

    pub open spec fn events(&self) -> Seq<SellEvent> {
        Self::flatten(self.event_list@)
    }

    /// Provider `i` is the price of the `i`-th event, and prices are distinct.
    pub open spec fn wf(&self) -> bool {
        &&& prices_distinct(self.providers@)
        &&& self.providers@.len() == self.events().len()
        &&& forall|i: int| 0 <= i < self.events().len() ==> #[trigger] self.providers@[i] == self.events()[i].price
    }

    pub proof fn lemma_flatten_prefix(groups: Seq<EventList>, g: int)
        requires
            0 <= g <= groups.len(),
        ensures
            Self::flatten(groups.take(g)).len() <= Self::flatten(groups).len(),
            Self::flatten(groups.take(g)) =~= Self::flatten(groups).take(
                Self::flatten(groups.take(g)).len() as int,
            ),
        decreases groups.len(),
    {
        if g == groups.len() {
            assert(groups.take(g) =~= groups);
        } else {
            Self::lemma_flatten_prefix(groups.drop_last(), g);
            assert(groups.drop_last().take(g) =~= groups.take(g));
        }
    }

    pub fn new() -> (r: Self)
        ensures
            r.event_list@.len() == 0,
            r.providers@.len() == 0,
            r.avail_matrix@.len() == 0,
    {
        Environment { event_list: Vec::new(), providers: Providers::new(), avail_matrix: Vec::new() }
    }
}

/// `a` comes before `b` when ordered by day, then by price.
pub open spec fn event_before(a: SellEvent, b: SellEvent) -> bool {
    a.day < b.day || (a.day == b.day && a.price < b.price)
}

/// Strictly ordered by day, then by price.
pub open spec fn sorted_by_day(s: Seq<SellEvent>) -> bool {
    forall|i: int, j: int| 0 <= i < j < s.len() ==> #[trigger] event_before(s[i], s[j])
}

/// `s` and `t` hold the same events, as many of each.
pub open spec fn same_events(s: Seq<SellEvent>, t: Seq<SellEvent>) -> bool {
    s.to_multiset() == t.to_multiset()
}

/// The prices of a sequence of events.
pub open spec fn event_prices(s: Seq<SellEvent>) -> Seq<u32> {
    s.map_values(|e: SellEvent| e.price)
}

/// Each group is non-empty, holds events of its own day only, and the days increase.
pub open spec fn grouped_by_day(groups: Seq<EventList>) -> bool {
    &&& forall|g: int| 0 <= g < groups.len() ==> #[trigger] groups[g].events@.len() > 0
    &&& forall|g: int, k: int|
        0 <= g < groups.len() && 0 <= k < groups[g].events@.len() ==> #[trigger] groups[g].events@[k].day
            == groups[g].day
    &&& forall|g: int, h: int| 0 <= g < h < groups.len() ==> #[trigger] groups[g].day < #[trigger] groups[h].day
}

proof fn lemma_flatten_push(groups: Seq<EventList>, g: EventList)
    ensures
        Environment::flatten(groups.push(g)) == Environment::flatten(groups) + g.events@,
{
    assert(groups.push(g).drop_last() =~= groups);
}

/// Sorts events by day, then price, in a new vector; prices must be distinct.
fn sort_events(events: &Vec<SellEvent>) -> (r: Vec<SellEvent>)
    requires
        prices_distinct(event_prices(events@)),
    ensures
        sorted_by_day(r@),
        same_events(r@, events@),
{
    broadcast use vstd::seq_lib::group_to_multiset_ensures, vstd::seq_lib::to_multiset_insert;

    let n = events.len();
    let mut sorted: Vec<SellEvent> = Vec::new();
    let mut k: usize = 0;
    assert(events@.take(0) =~= Seq::<SellEvent>::empty());
    while k < n
        invariant
            n == events@.len(),
            k <= n,
            prices_distinct(event_prices(events@)),
            sorted_by_day(sorted@),
            sorted@.to_multiset() == events@.take(k as int).to_multiset(),
        decreases n - k,
    {
        let e = events[k];
        let mut pos: usize = 0;
        while pos < sorted.len() && (sorted[pos].day < e.day || (sorted[pos].day == e.day
            && sorted[pos].price < e.price))
            invariant
                pos <= sorted@.len(),
                forall|i: int| 0 <= i < pos ==> event_before(#[trigger] sorted@[i], e),
            decreases sorted@.len() - pos,
        {
            pos += 1;
        }
        let ghost before = sorted@;
        proof {
            if pos < before.len() {
                let x = before[pos as int];
                assert(before.contains(x));
                before.to_multiset_ensures();
                events@.take(k as int).to_multiset_ensures();
                assert(before.to_multiset().count(x) > 0);
                assert(events@.take(k as int).to_multiset().count(x) > 0);
                assert(events@.take(k as int).contains(x));
                let t = choose|t: int| 0 <= t < k && events@.take(k as int)[t] == x;
                assert(event_prices(events@)[t] != event_prices(events@)[k as int]);
                assert(event_before(e, x));
            }
        }
        sorted.insert(pos, e);
        proof {
            let s = sorted@;
            assert(s == before.insert(pos as int, e));
            assert(events@.take(k + 1) =~= events@.take(k as int).push(e));
            vstd::seq_lib::to_multiset_insert(before, pos as int, e);
            events@.take(k as int).to_multiset_ensures();
            assert(s.to_multiset() == events@.take(k + 1).to_multiset());
            assert forall|i: int, j: int| 0 <= i < j < s.len() implies #[trigger] event_before(
                s[i],
                s[j],
            ) by {
                if j < pos {
                    assert(event_before(before[i], before[j]));
                } else if j == pos {
                    assert(event_before(before[i], e));
                } else if i < pos {
                    assert(event_before(before[i], before[j - 1]));
                } else if i == pos {
                    if j - 1 > pos {
                        assert(event_before(before[pos as int], before[j - 1]));
                    }
                } else {
                    assert(event_before(before[i - 1], before[j - 1]));
                }
            }
        }
        k += 1;
    }
    assert(events@.take(n as int) =~= events@);
    sorted
}

/// Builds the environment of a set of sell events: the events sorted by day and price and
/// grouped by day, and one provider per event, registered in that order. Fails on two events
/// with the same price.
pub fn make_environment(parsed_events: Vec<SellEvent>) -> (r: Result<Environment, BbpError>)
    requires
        parsed_events@.len() > 0,
    ensures
        !prices_distinct(event_prices(parsed_events@)) ==> r == Err::<Environment, BbpError>(
            BbpError::DuplicateProvider,
        ),
        r is Ok <==> prices_distinct(event_prices(parsed_events@)),
        r matches Ok(env) ==> {
            &&& env.wf()
            &&& sorted_by_day(env.events())
            &&& same_events(env.events(), parsed_events@)
            &&& grouped_by_day(env.event_list@)
            &&& env.event_list@.len() > 0
            &&& env.avail_matrix@.len() == 0
        },
{
    broadcast use vstd::seq_lib::group_to_multiset_ensures;

    let n = parsed_events.len();
    let mut seen = Providers::new();
    let mut i: usize = 0;
    while i < n
        invariant
            n == parsed_events@.len(),
            i <= n,
            seen@ == event_prices(parsed_events@).take(i as int),
            prices_distinct(seen@),
        decreases n - i,
    {
        let price = parsed_events[i].price;
        let ghost before = seen@;
        match seen.add_provider(price) {
            Ok(_) => {},
            Err(e) => {
                proof {
                    let t = choose|t: int| 0 <= t < before.len() && before[t] == price;
                    assert(event_prices(parsed_events@)[t] == event_prices(parsed_events@)[i as int]);
                }
                return Err(e);
            },
        }
        assert(seen@ =~= event_prices(parsed_events@).take(i + 1));
        i += 1;
    }
    assert(event_prices(parsed_events@).take(n as int) =~= event_prices(parsed_events@));
    let sorted = sort_events(&parsed_events);
    let ghost ss = sorted@;
    proof {
        assert(ss.len() == ss.to_multiset().len());
        assert(parsed_events@.len() == parsed_events@.to_multiset().len());
        assert forall|a: int, b: int|
            0 <= a < ss.len() && 0 <= b < ss.len() && a != b implies event_prices(ss)[a]
            != event_prices(ss)[b] by {
            assert(ss.contains(ss[a]));
            assert(ss.contains(ss[b]));
            assert(ss.to_multiset().count(ss[a]) > 0);
            assert(ss.to_multiset().count(ss[b]) > 0);
            assert(parsed_events@.contains(ss[a]));
            assert(parsed_events@.contains(ss[b]));
            let ta = choose|t: int| 0 <= t < n && parsed_events@[t] == ss[a];
            let tb = choose|t: int| 0 <= t < n && parsed_events@[t] == ss[b];
            if ss[a].price == ss[b].price {
                assert(event_prices(parsed_events@)[ta] == event_prices(parsed_events@)[tb]);
                if a < b {
                    assert(event_before(ss[a], ss[b]));
                } else {
                    assert(event_before(ss[b], ss[a]));
                }
            }
        }
    }
    let mut environment = Environment::new();
    let mut k: usize = 0;
    while k < n
        invariant
            n == ss.len(),
            ss == sorted@,
            k <= n,
            prices_distinct(event_prices(ss)),
            environment.providers@ == event_prices(ss).take(k as int),
            environment.event_list@.len() == 0,
            environment.avail_matrix@.len() == 0,
        decreases n - k,
    {
        match environment.providers.add_provider(sorted[k].price) {
            Ok(_) => {},
            Err(e) => {
                proof {
                    let t = choose|t: int|
                        0 <= t < k && event_prices(ss).take(k as int)[t] == sorted@[k as int].price;
                    assert(event_prices(ss)[t] == event_prices(ss)[k as int]);
                }
                return Err(e);
            },
        }
        assert(environment.providers@ =~= event_prices(ss).take(k + 1));
        k += 1;
    }
    assert(event_prices(ss).take(n as int) =~= event_prices(ss));
    let mut daily_events: Vec<EventList> = Vec::new();
    let mut daily = EventList::new(sorted[0].day);
    let mut cur_idx: usize = 0;
    assert(ss.take(0) =~= Seq::<SellEvent>::empty());
    while cur_idx < n
        invariant
            n == ss.len(),
            ss == sorted@,
            sorted_by_day(ss),
            cur_idx <= n,
            Environment::flatten(daily_events@) + daily.events@ == ss.take(cur_idx as int),
            cur_idx < n ==> daily.day == ss[cur_idx as int].day,
            cur_idx == n ==> daily.events@.len() > 0,
            forall|q: int| 0 <= q < daily.events@.len() ==> #[trigger] daily.events@[q].day == daily.day,
            grouped_by_day(daily_events@),
            forall|g: int| 0 <= g < daily_events@.len() ==> #[trigger] daily_events@[g].day < daily.day,
        decreases n - cur_idx,
    {
        daily.add_event(sorted[cur_idx]);
        cur_idx += 1;
        assert(ss.take(cur_idx as int) =~= ss.take(cur_idx - 1).push(ss[cur_idx - 1]));
        if cur_idx < n && sorted[cur_idx].day != daily.day {
            proof {
                assert(event_before(ss[cur_idx - 1], ss[cur_idx as int]));
                lemma_flatten_push(daily_events@, daily);
            }
            daily_events.push(daily);
            daily = EventList::new(sorted[cur_idx].day);
            assert(Environment::flatten(daily_events@) + daily.events@ =~= ss.take(cur_idx as int));
        }
    }
    proof {
        lemma_flatten_push(daily_events@, daily);
        assert(ss.take(n as int) =~= ss);
    }
    daily_events.push(daily);
    environment.event_list = daily_events;
    Ok(environment)
}

/// Two sequences ordered by day and price that hold the same events are equal.
pub proof fn lemma_sorted_unique(s: Seq<SellEvent>, t: Seq<SellEvent>)
    requires
        sorted_by_day(s),
        sorted_by_day(t),
        same_events(s, t),
    ensures
        s == t,
    decreases s.len(),
{
    broadcast use vstd::seq_lib::group_to_multiset_ensures;

    assert(s.len() == s.to_multiset().len());
    if s.len() == 0 {
        assert(s =~= t);
    } else {
        s.to_multiset_ensures();
        t.to_multiset_ensures();
        assert(t.len() == t.to_multiset().len());
        assert(s.contains(s[0]));
        assert(t.contains(t[0]));
        assert(t.to_multiset().count(s[0]) > 0);
        assert(s.to_multiset().count(t[0]) > 0);
        let j = choose|j: int| 0 <= j < t.len() && t[j] == s[0];
        let i = choose|i: int| 0 <= i < s.len() && s[i] == t[0];
        if j > 0 {
            assert(event_before(t[0], t[j]));
            assert(t[0] == s[i]);
            if i > 0 {
                assert(event_before(s[0], s[i]));
            }
        }
        assert(s[0] == t[0]);
        assert(s.len() == s.to_multiset().len());
        assert(t.len() == t.to_multiset().len());
        assert(s.remove(0) =~= s.drop_first());
        assert(t.remove(0) =~= t.drop_first());
        assert(s.remove(0).to_multiset() == s.to_multiset().remove(s[0]));
        assert(t.remove(0).to_multiset() == t.to_multiset().remove(t[0]));
        let s1 = s.drop_first();
        let t1 = t.drop_first();
        assert forall|x: int, y: int| 0 <= x < y < s1.len() implies #[trigger] event_before(s1[x], s1[y]) by {
            assert(event_before(s[x + 1], s[y + 1]));
        }
        assert forall|x: int, y: int| 0 <= x < y < t1.len() implies #[trigger] event_before(t1[x], t1[y]) by {
            assert(event_before(t[x + 1], t[y + 1]));
        }
        lemma_sorted_unique(s1, t1);
        assert forall|k: int| 0 <= k < s.len() implies s[k] == t[k] by {
            if k > 0 {
                assert(s[k] == s1[k - 1]);
                assert(t[k] == t1[k - 1]);
            }
        }
        assert(s =~= t);
    }
}

/// A grouping as plain values: each group's day and events.
pub open spec fn group_view(groups: Seq<EventList>) -> Seq<(u32, Seq<SellEvent>)> {
    groups.map_values(|g: EventList| (g.day, g.events@))
}

proof fn lemma_grouped_drop_last(groups: Seq<EventList>)
    requires
        grouped_by_day(groups),
        groups.len() > 0,
    ensures
        grouped_by_day(groups.drop_last()),
        Environment::flatten(groups).len() > 0,
        Environment::flatten(groups).last().day == groups.last().day,
        forall|g: int| 0 <= g < groups.len() - 1 ==> #[trigger] groups[g].day < groups.last().day,
{
    let d = groups.drop_last();
    assert(groups.last().events@.len() > 0);
    assert forall|g: int| 0 <= g < d.len() implies #[trigger] d[g].events@.len() > 0 by {
        assert(groups[g].events@.len() > 0);
    }
    assert forall|g: int, k: int| 0 <= g < d.len() && 0 <= k < d[g].events@.len() implies #[trigger] d[g].events@[k].day
        == d[g].day by {
        assert(groups[g].events@[k].day == groups[g].day);
    }
    assert forall|g: int, h: int| 0 <= g < h < d.len() implies #[trigger] d[g].day < #[trigger] d[h].day by {
        assert(groups[g].day < groups[h].day);
    }
    let l = groups.last().events@;
    assert(l[l.len() - 1].day == groups[groups.len() - 1].day);
    assert forall|g: int| 0 <= g < groups.len() - 1 implies #[trigger] groups[g].day < groups.last().day by {
        assert(groups[g].day < groups[groups.len() - 1].day);
    }
}

/// A sequence of events has one grouping by day: two groupings of the same events are equal.
pub proof fn lemma_grouping_unique(a: Seq<EventList>, b: Seq<EventList>)
    requires
        grouped_by_day(a),
        grouped_by_day(b),
        Environment::flatten(a) == Environment::flatten(b),
    ensures
        group_view(a) == group_view(b),
    decreases a.len() + b.len(),
{
    let s = Environment::flatten(a);
    if a.len() == 0 || b.len() == 0 {
        if a.len() > 0 {
            lemma_grouped_drop_last(a);
        }
        if b.len() > 0 {
            lemma_grouped_drop_last(b);
        }
        assert(group_view(a) =~= group_view(b));
    } else {
        lemma_grouped_drop_last(a);
        lemma_grouped_drop_last(b);
        let ga = a.last().events@;
        let gb = b.last().events@;
        let fa = Environment::flatten(a.drop_last());
        let fb = Environment::flatten(b.drop_last());
        assert(s == fa + ga);
        assert(s == fb + gb);
        if ga.len() < gb.len() {
            let idx = s.len() - ga.len() - 1;
            assert(s[idx] == gb[idx - fb.len()]);
            assert(s[idx].day == b.last().day);
            assert(fa.len() > 0) by {
                if fa.len() == 0 {
                    assert(a.drop_last().len() == 0) by {
                        if a.drop_last().len() > 0 {
                            lemma_grouped_drop_last(a.drop_last());
                        }
                    }
                }
            }
            assert(a.drop_last().len() > 0);
            lemma_grouped_drop_last(a.drop_last());
            assert(s[idx] == fa.last());
            assert(a.drop_last().last().day < a.last().day);
            assert(false);
        }
        if gb.len() < ga.len() {
            let idx = s.len() - gb.len() - 1;
            assert(s[idx] == ga[idx - fa.len()]);
            assert(s[idx].day == a.last().day);
            assert(fb.len() > 0) by {
                if fb.len() == 0 {
                    assert(b.drop_last().len() == 0) by {
                        if b.drop_last().len() > 0 {
                            lemma_grouped_drop_last(b.drop_last());
                        }
                    }
                }
            }
            assert(b.drop_last().len() > 0);
            lemma_grouped_drop_last(b.drop_last());
            assert(s[idx] == fb.last());
            assert(b.drop_last().last().day < b.last().day);
            assert(false);
        }
        assert(ga =~= s.subrange(fa.len() as int, s.len() as int));
        assert(gb =~= s.subrange(fb.len() as int, s.len() as int));
        assert(fa =~= s.subrange(0, fa.len() as int));
        assert(fb =~= s.subrange(0, fb.len() as int));
        lemma_grouping_unique(a.drop_last(), b.drop_last());
        assert(group_view(a) =~= group_view(a.drop_last()).push((a.last().day, ga)));
        assert(group_view(b) =~= group_view(b.drop_last()).push((b.last().day, gb)));
        assert(group_view(a.drop_last()) =~= group_view(b.drop_last()));
    }
}

/// Reordering the sell events does not change the environment built from them: two orderings
/// of one set of events give the same events, groups and providers.
pub proof fn lemma_reordering_keeps_environment(
    a: Seq<SellEvent>,
    b: Seq<SellEvent>,
    env_a: Environment,
    env_b: Environment,
)
    requires
        same_events(a, b),
        env_a.wf(),
        sorted_by_day(env_a.events()),
        same_events(env_a.events(), a),
        grouped_by_day(env_a.event_list@),
        env_b.wf(),
        sorted_by_day(env_b.events()),
        same_events(env_b.events(), b),
        grouped_by_day(env_b.event_list@),
    ensures
        env_a.events() == env_b.events(),
        group_view(env_a.event_list@) == group_view(env_b.event_list@),
        env_a.providers@ == env_b.providers@,
{
    lemma_sorted_unique(env_a.events(), env_b.events());
    lemma_grouping_unique(env_a.event_list@, env_b.event_list@);
    assert(env_a.providers@ =~= env_b.providers@);
}

} // verus!
