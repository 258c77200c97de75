use bbp::availability::{calculate_bread_availability, generate_empty_availability_vec, set_availability_at};
use bbp::environment::{make_environment, Environment};
use bbp::event::{EventList, SellEvent};
use bbp::plan::{cheapest_bread_for_day, daily_assignment, solve};
use bbp::providers::Providers;
use bbp::BbpError;

fn ev(day: u32, price: u32) -> SellEvent {
    SellEvent { day, price }
}

#[test]
fn providers_register_and_find() {
    let mut p = Providers::new();
    assert_eq!(p.add_provider(200), Ok(0));
    assert_eq!(p.add_provider(100), Ok(1));
    assert_eq!(p.add_provider(200), Err(BbpError::DuplicateProvider));
    assert_eq!(p.0, vec![200, 100]);
    assert_eq!(p.find_provider(100), Some(1));
    assert_eq!(p.find_provider(7), None);
}

#[test]
fn providers_sorted_by_price() {
    let p = Providers(vec![200, 100, 500, 30]);
    assert_eq!(p.sort_by_price(), vec![3, 1, 0, 2]);
    assert_eq!(Providers::new().sort_by_price(), Vec::<usize>::new());
    assert_eq!(Providers(vec![5, 5, 1]).sort_by_price(), vec![2, 0, 1]);
}

#[test]
fn event_list_collects_events() {
    let mut l = EventList::new(4);
    l.add_event(ev(4, 9));
    l.add_event(ev(4, 3));
    assert_eq!(l.day, 4);
    assert_eq!(l.events, vec![ev(4, 9), ev(4, 3)]);
}

#[test]
fn empty_environment() {
    let e = Environment::new();
    assert!(e.event_list.is_empty());
    assert!(e.providers.0.is_empty());
    assert!(e.avail_matrix.is_empty());
}

#[test]
fn environment_sorts_and_groups_events() {
    let env = make_environment(vec![ev(35, 500), ev(10, 200), ev(10, 100), ev(50, 30)]).unwrap();
    assert_eq!(env.providers.0, vec![100, 200, 500, 30]);
    assert_eq!(env.event_list.len(), 3);
    assert_eq!(env.event_list[0].day, 10);
    assert_eq!(env.event_list[0].events, vec![ev(10, 100), ev(10, 200)]);
    assert_eq!(env.event_list[1].events, vec![ev(35, 500)]);
    assert_eq!(env.event_list[2].events, vec![ev(50, 30)]);
    assert!(env.avail_matrix.is_empty());
}

#[test]
fn empty_row() {
    assert_eq!(generate_empty_availability_vec(3), vec![false, false, false]);
    assert!(generate_empty_availability_vec(0).is_empty());
}

#[test]
fn freshness_window_is_clipped() {
    let mut row = generate_empty_availability_vec(40);
    set_availability_at(&mut row, 5, 40);
    let expected: Vec<bool> = (0..40).map(|i| (5..35).contains(&i)).collect();
    assert_eq!(row, expected);

    let mut tail = generate_empty_availability_vec(40);
    set_availability_at(&mut tail, 35, 40);
    let expected: Vec<bool> = (0..40).map(|i| i >= 35).collect();
    assert_eq!(tail, expected);

    let mut none = generate_empty_availability_vec(10);
    set_availability_at(&mut none, 50, 10);
    assert_eq!(none, vec![false; 10]);
}

#[test]
fn availability_matrix_follows_events() {
    let env = make_environment(vec![ev(2, 9), ev(1, 4)]).unwrap();
    let m = calculate_bread_availability(&env, 40);
    assert_eq!(m.len(), 2);
    let row0: Vec<bool> = (0..40).map(|i| (1..31).contains(&i)).collect();
    let row1: Vec<bool> = (0..40).map(|i| (2..32).contains(&i)).collect();
    assert_eq!(m[0], row0);
    assert_eq!(m[1], row1);
}

#[test]
fn cheapest_fresh_provider_is_chosen() {
    let m = vec![vec![false, true, true], vec![false, false, true], vec![true, true, false]];
    let order = vec![1, 0, 2];
    assert_eq!(cheapest_bread_for_day(&m, &order, 0), Some(2));
    assert_eq!(cheapest_bread_for_day(&m, &order, 1), Some(0));
    assert_eq!(cheapest_bread_for_day(&m, &order, 2), Some(1));
    let nothing = vec![vec![false, false]];
    assert_eq!(cheapest_bread_for_day(&nothing, &vec![0], 1), None);
}

#[test]
fn daily_assignment_is_fresh_and_cheapest() {
    let env = make_environment(vec![ev(10, 200), ev(15, 100), ev(35, 500), ev(50, 30)]).unwrap();
    let m = calculate_bread_availability(&env, 60);
    let order = env.providers.sort_by_price();
    let daily = daily_assignment(&m, &order, 60);
    assert_eq!(daily.len(), 60);
    for (day, choice) in daily.iter().enumerate() {
        match choice {
            Some(p) => {
                assert!(m[*p][day]);
                for q in 0..m.len() {
                    if env.providers.0[q] < env.providers.0[*p] {
                        assert!(!m[q][day]);
                    }
                }
            }
            None => assert!(m.iter().all(|row| !row[day])),
        }
    }
    assert_eq!(daily[9], None);
    assert_eq!(daily[10], Some(0));
    assert_eq!(daily[15], Some(1));
    assert_eq!(daily[45], Some(2));
    assert_eq!(daily[59], Some(3));
}

#[test]
fn solve_documented_example() {
    let mut env = make_environment(vec![ev(10, 200), ev(15, 100), ev(35, 500), ev(50, 30)]).unwrap();
    env.avail_matrix = calculate_bread_availability(&env, 60);
    assert_eq!(solve(60, &env), vec![Some(5), Some(30), Some(5), Some(10)]);
}

#[test]
fn window_on_row_longer_than_calendar() {
    let mut row = vec![false; 5];
    set_availability_at(&mut row, 2, 4);
    assert_eq!(row, vec![false, false, true, true, false]);
    set_availability_at(&mut row, 2, 4);
    assert_eq!(row, vec![false, false, true, true, false]);
}

#[test]
fn window_on_row_shorter_than_calendar() {
    let mut untouched = vec![true, false];
    set_availability_at(&mut untouched, 9, 5);
    assert_eq!(untouched, vec![true, false]);
}

#[test]
fn solve_reads_only_calendar_days() {
    let mut env = make_environment(vec![ev(10, 200), ev(15, 100), ev(35, 500), ev(50, 30)]).unwrap();
    env.avail_matrix = calculate_bread_availability(&env, 80);
    assert_eq!(solve(60, &env), vec![Some(5), Some(30), Some(5), Some(10)]);
}

#[test]
fn reordered_events_give_the_same_environment() {
    let a = make_environment(vec![ev(10, 200), ev(15, 100), ev(10, 50), ev(50, 30)]).unwrap();
    let b = make_environment(vec![ev(50, 30), ev(10, 50), ev(15, 100), ev(10, 200)]).unwrap();
    assert_eq!(a, b);
}
