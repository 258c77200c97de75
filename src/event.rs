use vstd::prelude::*;

use vstd::utf8::encode_utf8;

use crate::BbpError;

verus! {

/// A one-time opportunity to buy any quantity of bread at `price` on `day`.
#[derive(Debug, Clone, Copy, PartialEq, Eq, Structural)]
pub struct SellEvent {
    pub day: u32,
    pub price: u32,
}

impl SellEvent {
    /// Days and prices start at one.
    pub open spec fn valid(&self) -> bool {
        self.day >= 1 && self.price >= 1
    }
}

/// The sell events of one day.
#[derive(Debug, Clone, PartialEq, Eq)]
pub struct EventList {
    pub day: u32,
    pub events: Vec<SellEvent>,
}

impl EventList {
    pub fn new(day: u32) -> (r: Self)
        ensures
            r.day == day,
            r.events@ == Seq::<SellEvent>::empty(),
    {
        EventList { day, events: Vec::new() }
    }

    pub fn add_event(&mut self, se: SellEvent)
        ensures
            final(self).day == old(self).day,
            final(self).events@ == old(self).events@.push(se),
    {
        self.events.push(se);
    }
}

pub open spec fn is_digit(c: u8) -> bool {
    48 <= c <= 57
}

pub open spec fn all_digits(b: Seq<u8>) -> bool {
    forall|i: int| 0 <= i < b.len() ==> is_digit(#[trigger] b[i])
}

/// The number that a string of decimal digits spells.
pub open spec fn digits_value(b: Seq<u8>) -> int
    decreases b.len(),
{
    if b.len() == 0 {
        0
    } else {
        digits_value(b.drop_last()) * 10 + (b.last() - 48)
    }
}

/// The digits of a number text, after an optional leading `+`.
pub open spec fn unsigned_digits(b: Seq<u8>) -> Seq<u8> {
    if b.len() > 0 && b[0] == 43 {
        b.drop_first()
    } else {
        b
    }
}

/// The `u32` written in decimal by `b`, with an optional leading `+`.
pub open spec fn decimal_of(b: Seq<u8>) -> Option<u32> {
    let d = unsigned_digits(b);
    if d.len() > 0 && all_digits(d) && digits_value(d) <= u32::MAX {
        Some(digits_value(d) as u32)
    } else {
        None
    }
}

/// The index of the first comma of `b` at or after `start`, or the length of `b`.
pub open spec fn comma_from(b: Seq<u8>, start: int) -> int
    decreases b.len() - start,
{
    if start < 0 || start >= b.len() {
        b.len() as int
    } else if b[start] == 44 {
        start
    } else {
        comma_from(b, start + 1)
    }
}

/// The sell event that an entry `(day,price)` denotes: the first and last byte enclose the
/// fields, which are separated by a comma; text after a second comma is ignored.
pub open spec fn entry_of(b: Seq<u8>) -> Result<SellEvent, BbpError> {
    if b.len() < 5 {
        Err(BbpError::EntryTooShort)
    } else {
        let inner = b.subrange(1, b.len() - 1);
        let c1 = comma_from(inner, 0);
        match decimal_of(inner.subrange(0, c1)) {
            None => Err(BbpError::InvalidNumber),
            Some(day) => if day == 0 {
                Err(BbpError::ZeroDay)
            } else if c1 == inner.len() {
                Err(BbpError::MissingField)
            } else {
                let c2 = comma_from(inner, c1 + 1);
                match decimal_of(inner.subrange(c1 + 1, c2)) {
                    None => Err(BbpError::InvalidNumber),
                    Some(price) => if price == 0 {
                        Err(BbpError::ZeroPrice)
                    } else {
                        Ok(SellEvent { day, price })
                    },
                }
            },
        }
    }
}

proof fn lemma_digits_value_grows(d: Seq<u8>, k: int)
    requires
        all_digits(d),
        0 <= k <= d.len(),
    ensures
        0 <= digits_value(d.take(k)) <= digits_value(d),
    decreases d.len(),
{
    if k == d.len() {
        assert(d.take(k) =~= d);
        lemma_digits_value_nonneg(d);
    } else {
        assert(all_digits(d.drop_last()));
        lemma_digits_value_grows(d.drop_last(), k);
        assert(d.drop_last().take(k) =~= d.take(k));
        lemma_digits_value_nonneg(d.drop_last());
    }
}

proof fn lemma_digits_value_nonneg(d: Seq<u8>)
    requires
        all_digits(d),
    ensures
        digits_value(d) >= 0,
    decreases d.len(),
{
    if d.len() > 0 {
        assert(all_digits(d.drop_last()));
        lemma_digits_value_nonneg(d.drop_last());
    }
}

/// Reads the decimal number written in `b[start..end]`.
fn parse_decimal(b: &[u8], start: usize, end: usize) -> (r: Option<u32>)
    requires
        start <= end <= b@.len(),
    ensures
        r == decimal_of(b@.subrange(start as int, end as int)),
{
    let ghost text = b@.subrange(start as int, end as int);
    let mut i: usize = start;
    if start < end && b[start] == 43 {
        i = start + 1;
    }
    let ghost d = unsigned_digits(text);
    assert(d =~= b@.subrange(i as int, end as int));
    if i == end {
        return None;
    }
    let first = i;
    let mut acc: u64 = 0;
    while i < end
        invariant
            first <= i <= end <= b@.len(),
            d == b@.subrange(first as int, end as int),
            d == unsigned_digits(text),
            text == b@.subrange(start as int, end as int),
            all_digits(d.take(i - first)),
            acc == digits_value(d.take(i - first)),
            acc <= u32::MAX,
        decreases end - i,
    {
        let c = b[i];
        assert(d[i - first] == c);
        if c < 48 || c > 57 {
            assert(!is_digit(d[i - first]));
            return None;
        }
        proof {
            assert(d.take(i - first + 1).drop_last() =~= d.take(i - first));
            assert(d.take(i - first + 1).last() == c);
            assert(all_digits(d.take(i - first + 1)));
        }
        acc = acc * 10 + (c - 48) as u64;
        i += 1;
        if acc > u32::MAX as u64 {
            proof {
                if all_digits(d) {
                    lemma_digits_value_grows(d, i - first);
                }
            }
            return None;
        }
    }
    assert(d.take(end - first) =~= d);
    Some(acc as u32)
}

/// The index of the first comma of `b` at or after `start`, or the length of `b`.
fn find_comma(b: &[u8], start: usize) -> (r: usize)
    requires
        start <= b@.len(),
    ensures
        r == comma_from(b@, start as int),
{
    let mut i: usize = start;
    while i < b.len()
        invariant
            start <= i <= b@.len(),
            comma_from(b@, start as int) == comma_from(b@, i as int),
        decreases b@.len() - i,
    {
        if b[i] == 44 {
            return i;
        }
        i += 1;
    }
    i
}

/// Reads one sell event from the bytes of an entry `(day,price)`.
fn parse_event_bytes(b: &[u8]) -> (r: Result<SellEvent, BbpError>)
    ensures
        r == entry_of(b@),
{
    let len = b.len();
    if len < 5 {
        return Err(BbpError::EntryTooShort);
    }
    let mut inner: Vec<u8> = Vec::new();
    let mut i: usize = 1;
    while i < len - 1
        invariant
            1 <= i <= len - 1,
            len == b@.len(),
            inner@ == b@.subrange(1, i as int),
        decreases len - 1 - i,
    {
        inner.push(b[i]);
        i += 1;
        assert(inner@ =~= b@.subrange(1, i as int));
    }
    let c1 = find_comma(inner.as_slice(), 0);
    proof {
        lemma_comma_from_bounds(inner@, 0);
    }
    let day = match parse_decimal(inner.as_slice(), 0, c1) {
        Some(d) => d,
        None => {
            return Err(BbpError::InvalidNumber);
        },
    };
    if day == 0 {
        return Err(BbpError::ZeroDay);
    }
    if c1 == inner.len() {
        return Err(BbpError::MissingField);
    }
    let c2 = find_comma(inner.as_slice(), c1 + 1);
    proof {
        assert(comma_from(inner@, c1 + 1) <= inner@.len()) by {
            lemma_comma_from_bounds(inner@, c1 + 1);
        }
        assert(c1 + 1 <= comma_from(inner@, c1 + 1)) by {
            lemma_comma_from_bounds(inner@, c1 + 1);
        }
    }
    let price = match parse_decimal(inner.as_slice(), c1 + 1, c2) {
        Some(p) => p,
        None => {
            return Err(BbpError::InvalidNumber);
        },
    };
    if price == 0 {
        return Err(BbpError::ZeroPrice);
    }
    Ok(SellEvent { day, price })
}

proof fn lemma_comma_from_bounds(b: Seq<u8>, start: int)
    requires
        0 <= start <= b.len(),
    ensures
        start <= comma_from(b, start) <= b.len(),
    decreases b.len() - start,
{
    if start < b.len() && b[start] != 44 {
        lemma_comma_from_bounds(b, start + 1);
    }
}

impl SellEvent {
    /// Reads a sell event from its text `(day,price)`: both fields are decimal numbers of at
    /// least one.
    pub fn new(in_evt_str: &str) -> (r: Result<SellEvent, BbpError>)
        ensures
            r == entry_of(encode_utf8(in_evt_str@)),
            r matches Ok(e) ==> e.valid(),
    {
        parse_event_bytes(in_evt_str.as_bytes())
    }
}

/// The pieces of `b` between single spaces, empty pieces included.
pub open spec fn split_spaces(b: Seq<u8>) -> Seq<Seq<u8>>
    decreases b.len(),
{
    if b.len() == 0 {
        seq![Seq::<u8>::empty()]
    } else {
        let s = split_spaces(b.drop_last());
        if b.last() == 32 {
            s.push(Seq::<u8>::empty())
        } else {
            s.update(s.len() - 1, s.last().push(b.last()))
        }
    }
}

/// The sell events of a list of entries: the first entry that does not read, or the first
/// event whose day is before the previous one, is an error.
pub open spec fn events_of(pieces: Seq<Seq<u8>>) -> Result<Seq<SellEvent>, BbpError>
    decreases pieces.len(),
{
    if pieces.len() == 0 {
        Ok(Seq::empty())
    } else {
        match events_of(pieces.drop_last()) {
            Err(e) => Err(e),
            Ok(evs) => match entry_of(pieces.last()) {
                Err(e) => Err(e),
                Ok(ev) => if evs.len() > 0 && evs.last().day > ev.day {
                    Err(BbpError::DaysOutOfOrder)
                } else {
                    Ok(evs.push(ev))
                },
            },
        }
    }
}

/// The calendar length and sell events of a command line: program name, number of days, and
/// the entries separated by spaces.
pub open spec fn input_of(args: Seq<Seq<u8>>) -> Result<(u32, Seq<SellEvent>), BbpError> {
    if args.len() != 3 {
        Err(BbpError::WrongArgumentCount)
    } else {
        match decimal_of(args[1]) {
            None => Err(BbpError::InvalidNumber),
            Some(days) => if days == 0 {
                Err(BbpError::ZeroCalendarDays)
            } else {
                match events_of(split_spaces(args[2])) {
                    Err(e) => Err(e),
                    Ok(evs) => Ok((days, evs)),
                }
            },
        }
    }
}

pub open spec fn args_bytes(args: Seq<String>) -> Seq<Seq<u8>> {
    args.map_values(|a: String| encode_utf8(a@))
}

pub open spec fn input_view(r: Result<(u32, Vec<SellEvent>), BbpError>) -> Result<(u32, Seq<SellEvent>), BbpError> {
    match r {
        Ok((d, v)) => Ok((d, v@)),
        Err(e) => Err(e),
    }
}

pub open spec fn pieces_view(p: Seq<Vec<u8>>) -> Seq<Seq<u8>> {
    p.map_values(|v: Vec<u8>| v@)
}

/// Reads the number of calendar days and the sell events from the command-line arguments.
pub fn parse_input(args: &Vec<String>) -> (r: Result<(u32, Vec<SellEvent>), BbpError>)
    ensures
        input_view(r) == input_of(args_bytes(args@)),
{
    if args.len() != 3 {
        return Err(BbpError::WrongArgumentCount);
    }
    let ghost a = args_bytes(args@);
    let days_text = args[1].as_str().as_bytes();
    assert(days_text@ == a[1]);
    let days = match parse_decimal(days_text, 0, days_text.len()) {
        Some(d) => d,
        None => {
            assert(days_text@.subrange(0, days_text@.len() as int) =~= days_text@);
            return Err(BbpError::InvalidNumber);
        },
    };
    assert(days_text@.subrange(0, days_text@.len() as int) =~= days_text@);
    if days == 0 {
        return Err(BbpError::ZeroCalendarDays);
    }
    let text = args[2].as_str().as_bytes();
    assert(text@ == a[2]);
    let mut pieces: Vec<Vec<u8>> = Vec::new();
    let mut cur: Vec<u8> = Vec::new();
    let mut i: usize = 0;
    assert(pieces_view(pieces@).push(cur@) =~= split_spaces(text@.take(0)));
    while i < text.len()
        invariant
            a == args_bytes(args@),
            a.len() == 3,
            text@ == a[2],
            decimal_of(a[1]) == Some(days),
            days != 0,
            i <= text@.len(),
            pieces_view(pieces@).push(cur@) == split_spaces(text@.take(i as int)),
        decreases text@.len() - i,
    {
        let ghost pv = pieces_view(pieces@);
        let ghost cv = cur@;
        assert(text@.take(i + 1).drop_last() =~= text@.take(i as int));
        if text[i] == 32 {
            pieces.push(cur);
            cur = Vec::new();
            assert(pieces_view(pieces@) =~= pv.push(cv));
            assert(pieces_view(pieces@).push(cur@) =~= pv.push(cv).push(Seq::<u8>::empty()));
        } else {
            cur.push(text[i]);
            assert(pieces_view(pieces@).push(cur@) =~= pv.push(cv).update(
                pv.len() as int,
                cv.push(text@[i as int]),
            ));
        }
        i += 1;
    }
    let ghost pv = pieces_view(pieces@);
    pieces.push(cur);
    assert(text@.take(text@.len() as int) =~= text@);
    assert(pieces_view(pieces@) =~= split_spaces(text@));
    let ghost all = split_spaces(text@);
    let mut events: Vec<SellEvent> = Vec::new();
    let mut k: usize = 0;
    assert(all.take(0) =~= Seq::<Seq<u8>>::empty());
    while k < pieces.len()
        invariant
            all == pieces_view(pieces@),
            a == args_bytes(args@),
            a.len() == 3,
            all == split_spaces(a[2]),
            decimal_of(a[1]) == Some(days),
            days != 0,
            k <= pieces@.len(),
            events_of(all.take(k as int)) == Ok::<Seq<SellEvent>, BbpError>(events@),
        decreases pieces@.len() - k,
    {
        assert(all.take(k + 1).drop_last() =~= all.take(k as int));
        assert(pieces@[k as int]@ == all[k as int]);
        let ev = match parse_event_bytes(pieces[k].as_slice()) {
            Ok(ev) => ev,
            Err(e) => {
                proof {
                    assert(all.take(k + 1).last() == all[k as int]);
                    assert(events_of(all.take(k + 1)) == Err::<Seq<SellEvent>, BbpError>(e));
                    lemma_events_of_error(all, k as int + 1);
                }
                return Err(e);
            },
        };
        let n = events.len();
        if n > 0 && events[n - 1].day > ev.day {
            proof {
                assert(all.take(k + 1).last() == all[k as int]);
                assert(events_of(all.take(k + 1)) == Err::<Seq<SellEvent>, BbpError>(
                    BbpError::DaysOutOfOrder,
                ));
                lemma_events_of_error(all, k as int + 1);
            }
            return Err(BbpError::DaysOutOfOrder);
        }
        events.push(ev);
        proof {
            assert(all.take(k + 1).last() == all[k as int]);
        }
        k += 1;
    }
    assert(all.take(pieces@.len() as int) =~= all);
    Ok((days, events))
}

proof fn lemma_events_of_error(pieces: Seq<Seq<u8>>, k: int)
    requires
        0 <= k <= pieces.len(),
        events_of(pieces.take(k)) is Err,
    ensures
        events_of(pieces) == events_of(pieces.take(k)),
    decreases pieces.len(),
{
    if k < pieces.len() {
        assert(pieces.drop_last().take(k) =~= pieces.take(k));
        lemma_events_of_error(pieces.drop_last(), k);
    } else {
        assert(pieces.take(k) =~= pieces);
    }
}

} // verus!
