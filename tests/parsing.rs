use bbp::event::{parse_input, SellEvent};
use bbp::BbpError;

fn args(days: &str, events: &str) -> Vec<String> {
    vec!["bbp".to_string(), days.to_string(), events.to_string()]
}

#[test]
fn entry_reads_day_and_price() {
    assert_eq!(SellEvent::new("(10,200)"), Ok(SellEvent { day: 10, price: 200 }));
    assert_eq!(SellEvent::new("(1,2)"), Ok(SellEvent { day: 1, price: 2 }));
    assert_eq!(SellEvent::new("(+7,9)"), Ok(SellEvent { day: 7, price: 9 }));
    assert_eq!(SellEvent::new("(1,2,3)"), Ok(SellEvent { day: 1, price: 2 }));
    assert_eq!(
        SellEvent::new("(4294967295,1)"),
        Ok(SellEvent { day: 4294967295, price: 1 })
    );
}

#[test]
fn entry_errors() {
    assert_eq!(SellEvent::new("(1,)"), Err(BbpError::EntryTooShort));
    assert_eq!(SellEvent::new(""), Err(BbpError::EntryTooShort));
    assert_eq!(SellEvent::new("(0,5)"), Err(BbpError::ZeroDay));
    assert_eq!(SellEvent::new("(5,0)"), Err(BbpError::ZeroPrice));
    assert_eq!(SellEvent::new("(a,5)"), Err(BbpError::InvalidNumber));
    assert_eq!(SellEvent::new("(5,b)"), Err(BbpError::InvalidNumber));
    assert_eq!(SellEvent::new("(5,,6)"), Err(BbpError::InvalidNumber));
    assert_eq!(SellEvent::new("(12345)"), Err(BbpError::MissingField));
    assert_eq!(SellEvent::new("(4294967296,1)"), Err(BbpError::InvalidNumber));
    assert_eq!(SellEvent::new("(-1,22)"), Err(BbpError::InvalidNumber));
}

#[test]
fn command_line_is_read() {
    let (days, events) = parse_input(&args("60", "(10,200) (15,100) (35,500) (50,30)")).unwrap();
    assert_eq!(days, 60);
    assert_eq!(
        events,
        vec![
            SellEvent { day: 10, price: 200 },
            SellEvent { day: 15, price: 100 },
            SellEvent { day: 35, price: 500 },
            SellEvent { day: 50, price: 30 },
        ]
    );
    let (_, same_day) = parse_input(&args("5", "(1,50) (1,40)")).unwrap();
    assert_eq!(same_day.len(), 2);
}

#[test]
fn command_line_errors() {
    assert_eq!(parse_input(&vec!["bbp".to_string()]), Err(BbpError::WrongArgumentCount));
    assert_eq!(parse_input(&args("0", "(1,2)")), Err(BbpError::ZeroCalendarDays));
    assert_eq!(parse_input(&args("x", "(1,2)")), Err(BbpError::InvalidNumber));
    assert_eq!(parse_input(&args("9", "(15,100) (10,200)")), Err(BbpError::DaysOutOfOrder));
    assert_eq!(parse_input(&args("9", "(1,2)  (3,4)")), Err(BbpError::EntryTooShort));
    assert_eq!(parse_input(&args("9", "")), Err(BbpError::EntryTooShort));
    assert_eq!(parse_input(&args("9", "(1,2) (3,0)")), Err(BbpError::ZeroPrice));
}
