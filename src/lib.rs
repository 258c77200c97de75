use vstd::prelude::*;

pub mod availability;
pub mod environment;
pub mod event;
pub mod plan;
pub mod providers;

verus! {

/// Number of days during which a purchased loaf stays fresh, counted from the day of sale.
pub const BREAD_EXPIRATION: u32 = 30;

/// Number of fresh loaves on hand before the first day of the calendar.
pub const INITIAL_BREAD: u32 = 10;

/// Errors of the purchase planner.
#[derive(Debug, Clone, Copy, PartialEq, Eq, Structural)]
pub enum BbpError {
    /// An entry is shorter than the shortest well-formed `(d,p)` text.
    EntryTooShort,
    /// An entry lacks its day or its price field.
    MissingField,
    /// A day or price field is not a decimal number that fits in `u32`.
    InvalidNumber,
    /// A sell event on day zero.
    ZeroDay,
    /// A sell event with price zero.
    ZeroPrice,
    /// The number of calendar days is zero.
    ZeroCalendarDays,
    /// The command line does not hold exactly the calendar length and the event list.
    WrongArgumentCount,
    /// Sell events are not listed in non-decreasing day order.
    DaysOutOfOrder,
    /// No sell event was given.
    EmptyCalendar,
    /// Two sell events share a price.
    DuplicateProvider,
}

} // verus!
