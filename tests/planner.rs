use bbp::environment::make_environment;
use bbp::event::SellEvent;
use bbp::plan::{compile_plan, plan_purchases};
use bbp::{BbpError, INITIAL_BREAD};

fn ev(day: u32, price: u32) -> SellEvent {
    SellEvent { day, price }
}

fn documented_events() -> Vec<SellEvent> {
    vec![ev(10, 200), ev(15, 100), ev(35, 500), ev(50, 30)]
}

fn ordered_total(plan: &[Option<u32>]) -> u64 {
    plan.iter().map(|q| q.unwrap_or(0) as u64).sum()
}

fn stale_days(plan: &[Option<u32>]) -> u64 {
    plan.iter().filter(|q| q.is_none()).count() as u64
}

#[test]
fn documented_example_plan() {
    let plan = plan_purchases(60, documented_events()).unwrap();
    assert_eq!(plan, vec![Some(5), Some(30), Some(5), Some(10)]);
}

#[test]
fn single_event_then_stale_days() {
    let plan = plan_purchases(40, vec![ev(5, 100)]).unwrap();
    assert_eq!(plan, vec![Some(25), None, None, None, None, None]);
}

#[test]
fn switch_within_initial_stock_orders_nothing() {
    let plan = plan_purchases(3, vec![ev(1, 50), ev(2, 40)]).unwrap();
    assert_eq!(plan, Vec::<Option<u32>>::new());
}

#[test]
fn switch_after_initial_stock_closes_the_run() {
    // cheaper bread appears on day 12, after two days at the first provider
    let plan = plan_purchases(15, vec![ev(1, 50), ev(12, 40)]).unwrap();
    assert_eq!(plan, vec![Some(2), Some(3)]);
}

#[test]
fn same_day_events_with_equal_price_are_refused() {
    assert_eq!(plan_purchases(3, vec![ev(1, 50), ev(1, 50)]), Err(BbpError::DuplicateProvider));
}

#[test]
fn equal_price_on_different_days_is_refused() {
    assert_eq!(plan_purchases(60, vec![ev(1, 50), ev(20, 50)]), Err(BbpError::DuplicateProvider));
    assert_eq!(
        make_environment(vec![ev(3, 7), ev(1, 8), ev(9, 7)]).err(),
        Some(BbpError::DuplicateProvider)
    );
}

#[test]
fn planner_errors() {
    assert_eq!(plan_purchases(0, documented_events()), Err(BbpError::ZeroCalendarDays));
    assert_eq!(plan_purchases(10, vec![]), Err(BbpError::EmptyCalendar));
    assert_eq!(plan_purchases(10, vec![ev(0, 5)]), Err(BbpError::ZeroDay));
}

#[test]
fn reordered_events_give_the_same_plan() {
    let expected = plan_purchases(60, documented_events()).unwrap();
    let reordered = vec![ev(50, 30), ev(15, 100), ev(35, 500), ev(10, 200)];
    assert_eq!(plan_purchases(60, reordered).unwrap(), expected);
    let reversed: Vec<SellEvent> = documented_events().into_iter().rev().collect();
    assert_eq!(plan_purchases(60, reversed).unwrap(), expected);
}

#[test]
fn every_day_is_accounted_for() {
    for (days, events) in [
        (60u32, documented_events()),
        (40, vec![ev(5, 100)]),
        (100, vec![ev(3, 9), ev(70, 4), ev(20, 11)]),
        (10, vec![ev(2, 1)]),
    ] {
        let plan = plan_purchases(days, events).unwrap();
        assert_eq!(
            ordered_total(&plan) + INITIAL_BREAD as u64,
            days as u64 - stale_days(&plan)
        );
    }
}

#[test]
fn short_calendar_is_covered_by_initial_stock() {
    let plan = plan_purchases(5, vec![ev(1, 10)]).unwrap();
    assert_eq!(plan, Vec::<Option<u32>>::new());
}

#[test]
fn compile_plan_emits_runs_and_stale_days() {
    let mut daily: Vec<Option<usize>> = vec![None; 10];
    daily.extend([Some(0), Some(0), Some(0), None, Some(1)]);
    assert_eq!(compile_plan(&daily), vec![Some(3), None, Some(1)]);
}

#[test]
fn compile_plan_switch_emits_previous_run() {
    let mut daily: Vec<Option<usize>> = vec![None; 10];
    daily.extend([Some(0), Some(1), Some(1)]);
    assert_eq!(compile_plan(&daily), vec![Some(1), Some(2)]);
}

#[test]
fn compile_plan_without_fresh_bread() {
    let daily: Vec<Option<usize>> = vec![None; 12];
    assert_eq!(compile_plan(&daily), vec![None, None]);
    assert_eq!(compile_plan(&Vec::new()), Vec::<Option<u32>>::new());
}

#[test]
fn initial_stock_hides_fresh_bread() {
    let mut daily: Vec<Option<usize>> = vec![None; 2];
    daily.extend([Some(4); 9]);
    daily.extend([Some(4), Some(4)]);
    assert_eq!(compile_plan(&daily), vec![Some(3)]);
}
