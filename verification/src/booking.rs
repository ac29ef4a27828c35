//! What a booking writes: the booking itself, one ticket, and one entry for
//! each flight of the ticket, priced from the fares that were read.

use vstd::prelude::*;
use std::collections::HashMap;
use rand::Rng;
use crate::handlers::{CreateBookingParameters, CreateBookingResult};
use crate::types::BookingClass;

verus! {

/// The fare of one flight in the class that is booked.
#[derive(Clone, Copy, Debug, PartialEq, Eq, Structural)]
pub struct FlightPrice {
    pub flight_id: i32,
    pub amount: i32,
}

/// One flight of a ticket with what it costs.
#[derive(Clone, Copy, Debug, PartialEq, Eq, Structural)]
pub struct TicketFlight {
    pub flight_id: i32,
    pub fare_conditions: BookingClass,
    pub amount: i32,
}

/// Everything that a booking writes.
#[derive(Clone, Debug, PartialEq, Eq)]
pub struct BookingEntries {
    pub book_ref: String,
    pub total_amount: i32,
    pub ticket_no: String,
    pub passenger_id: String,
    pub passenger_name: String,
    pub ticket_flights: Vec<TicketFlight>,
}

/// Why a booking cannot be made.
#[derive(Clone, Copy, Debug, PartialEq, Eq, Structural)]
pub enum BookingError {
    /// The fares add up to more than an amount can hold.
    TotalOutOfRange,
}

impl BookingError {
    /// The text of the refusal.
    pub open spec fn spec_message(self) -> Seq<char> {
        match self {
            BookingError::TotalOutOfRange => "The total price is out of range"@,
        }
    }

    /// The text shown to the one who asked for the booking.
    pub fn message(&self) -> (text: String)
        ensures
            text@ == self.spec_message(),
    {
        match self {
            BookingError::TotalOutOfRange => "The total price is out of range".to_owned(),
        }
    }
}

/// Some fare was read for the flight.
pub open spec fn has_fare(prices: Seq<FlightPrice>, flight_id: i32) -> bool {
    exists|i: int| 0 <= i < prices.len() && (#[trigger] prices[i]).flight_id == flight_id
}

/// The last fare that was read for the flight.
pub open spec fn last_fare(prices: Seq<FlightPrice>, flight_id: i32) -> i32
    decreases prices.len(),
{
    if prices.len() == 0 {
        0
    } else if prices.last().flight_id == flight_id {
        prices.last().amount
    } else {
        last_fare(prices.drop_last(), flight_id)
    }
}

/// The table of fares by flight. Of several fares read for one flight the
/// last one stays.
pub open spec fn price_table_of(prices: Seq<FlightPrice>) -> Map<i32, i32> {
    Map::new(
        |flight_id: i32| has_fare(prices, flight_id),
        |flight_id: i32| last_fare(prices, flight_id),
    )
}

/// What a flight costs by the table: its fare, and nothing where the table
/// has none for it.
pub open spec fn fare_in(table: Map<i32, i32>, flight_id: i32) -> i32 {
    if table.contains_key(flight_id) {
        table[flight_id]
    } else {
        0
    }
}

/// The fare at position `i` is in the table: no later fare is for the same
/// flight.
pub open spec fn counts(prices: Seq<FlightPrice>, i: int) -> bool {
    forall|j: int| i < j < prices.len() ==> (#[trigger] prices[j]).flight_id != prices[i].flight_id
}

/// The sum of the fares that count among the first `n`.
pub open spec fn total_of(prices: Seq<FlightPrice>, n: nat) -> int
    decreases n,
{
    if n == 0 {
        0
    } else {
        total_of(prices, (n - 1) as nat) + (if counts(prices, n - 1) {
            prices[n - 1].amount as int
        } else {
            0
        })
    }
}

/// The sum of the fares in the table: one fare for each flight that has
/// any.
pub open spec fn total_price_of(prices: Seq<FlightPrice>) -> int {
    total_of(prices, prices.len())
}

/// The digit of value `digit` in upper-case hexadecimal.
pub open spec fn hex_digit(digit: int) -> char {
    seq!['0', '1', '2', '3', '4', '5', '6', '7', '8', '9', 'A', 'B', 'C', 'D', 'E', 'F'][digit]
}

/// A byte in upper-case hexadecimal, without leading zero.
pub open spec fn upper_hex(value: u8) -> Seq<char> {
    if value < 16 {
        seq![hex_digit(value as int)]
    } else {
        seq![hex_digit(value as int / 16), hex_digit(value as int % 16)]
    }
}

/// The reference of a booking with the given suffix.
pub open spec fn booking_reference_of(suffix: u8) -> Seq<char> {
    "_FFF"@ + upper_hex(suffix)
}

/// The number of a ticket with the given suffix.
pub open spec fn ticket_number_of(suffix: u8) -> Seq<char> {
    "_9999999999"@ + upper_hex(suffix)
}

/// The entries of the flights of a ticket: each flight that is asked for, in
/// the order asked, at its fare.
pub open spec fn ticket_flights_of(
    flight_ids: Seq<i32>,
    fare_conditions: BookingClass,
    prices: Seq<FlightPrice>,
) -> Seq<TicketFlight> {
    Seq::new(
        flight_ids.len(),
        |i: int|
            TicketFlight {
                flight_id: flight_ids[i],
                fare_conditions,
                amount: fare_in(price_table_of(prices), flight_ids[i]),
            },
    )
}

/// `result` is the booking of `parameters` at the fares `prices`, with the
/// two suffixes in its reference and its ticket number: it is refused where
/// the total does not fit an amount, and else writes what was asked for.
pub open spec fn books(
    parameters: CreateBookingParameters,
    prices: Seq<FlightPrice>,
    reference_suffix: u8,
    ticket_suffix: u8,
    result: Result<BookingEntries, BookingError>,
) -> bool {
    match result {
        Err(error) => {
            &&& error == BookingError::TotalOutOfRange
            &&& !(i32::MIN <= total_price_of(prices) <= i32::MAX)
        },
        Ok(entries) => {
            &&& entries.total_amount == total_price_of(prices)
            &&& entries.book_ref@ == booking_reference_of(reference_suffix)
            &&& entries.ticket_no@ == ticket_number_of(ticket_suffix)
            &&& entries.passenger_id@ == parameters.passenger_id@
            &&& entries.passenger_name@ == parameters.passenger_name@
            &&& entries.ticket_flights@ == ticket_flights_of(
                parameters.flight_ids@,
                parameters.fare_conditions,
                prices,
            )
        },
    }
}

/// Reading one more fare puts it into the table in place of the fare that
/// its flight had.
pub proof fn lemma_price_table_push(prices: Seq<FlightPrice>, fare: FlightPrice)
    ensures
        price_table_of(prices.push(fare)) == price_table_of(prices).insert(
            fare.flight_id,
            fare.amount,
        ),
{
    let longer = prices.push(fare);
    assert(longer.drop_last() =~= prices);
    assert forall|flight_id: i32|
        has_fare(longer, flight_id) <==> (has_fare(prices, flight_id) || flight_id
            == fare.flight_id) by {
        if has_fare(prices, flight_id) {
            let i = choose|i: int|
                0 <= i < prices.len() && (#[trigger] prices[i]).flight_id == flight_id;
            assert(longer[i].flight_id == flight_id);
        }
        if flight_id == fare.flight_id {
            assert(longer[prices.len() as int].flight_id == flight_id);
        }
        if has_fare(longer, flight_id) && flight_id != fare.flight_id {
            let i = choose|i: int|
                0 <= i < longer.len() && (#[trigger] longer[i]).flight_id == flight_id;
            assert(prices[i].flight_id == flight_id);
        }
    }
    assert(price_table_of(longer) =~= price_table_of(prices).insert(fare.flight_id, fare.amount));
}

/// The fare among the first `n` that is in the table for the flight, or
/// nothing where there is none.
spec fn counted_fare(prices: Seq<FlightPrice>, flight_id: i32, n: nat) -> int
    decreases n,
{
    if n == 0 {
        0
    } else if prices[n - 1].flight_id == flight_id && counts(prices, n - 1) {
        prices[n - 1].amount as int
    } else {
        counted_fare(prices, flight_id, (n - 1) as nat)
    }
}

/// Before a fare that is in the table, no fare for its flight is.
proof fn lemma_counted_fare_once(prices: Seq<FlightPrice>, at: int, n: nat)
    requires
        n <= at < prices.len(),
        counts(prices, at),
    ensures
        counted_fare(prices, prices[at].flight_id, n) == 0,
    decreases n,
{
    if n > 0 {
        lemma_counted_fare_once(prices, at, (n - 1) as nat);
        if prices[n - 1].flight_id == prices[at].flight_id {
            assert(prices[at].flight_id == prices[n - 1].flight_id);
            assert(!counts(prices, n - 1));
        }
    }
}

/// With one more fare read, the fares of other flights stay in the table
/// and the fare that its flight had leaves it.
proof fn lemma_total_of_push(prices: Seq<FlightPrice>, fare: FlightPrice, n: nat)
    requires
        n <= prices.len(),
    ensures
        total_of(prices.push(fare), n) == total_of(prices, n) - counted_fare(
            prices,
            fare.flight_id,
            n,
        ),
    decreases n,
{
    let longer = prices.push(fare);
    if n > 0 {
        let i = n - 1;
        lemma_total_of_push(prices, fare, (n - 1) as nat);
        assert(longer[i] == prices[i]);
        if counts(prices, i) && prices[i].flight_id != fare.flight_id {
            assert forall|j: int| i < j < longer.len() implies (#[trigger] longer[j]).flight_id
                != longer[i].flight_id by {
                if j < prices.len() {
                    assert(prices[j].flight_id != prices[i].flight_id);
                }
            }
        }
        if counts(longer, i) {
            assert(longer[prices.len() as int].flight_id != longer[i].flight_id);
            assert forall|j: int| i < j < prices.len() implies (#[trigger] prices[j]).flight_id
                != prices[i].flight_id by {
                assert(longer[j].flight_id != longer[i].flight_id);
            }
        }
        if counts(prices, i) && prices[i].flight_id == fare.flight_id {
            lemma_counted_fare_once(prices, i, (n - 1) as nat);
        }
    }
}

/// The fare that is in the table for a flight is the last that was read
/// for it.
proof fn lemma_counted_fare_is_last(prices: Seq<FlightPrice>, flight_id: i32, n: nat)
    requires
        n <= prices.len(),
    ensures
        n == prices.len() ==> counted_fare(prices, flight_id, n) == last_fare(prices, flight_id),
        prices.len() > 0 && prices.last().flight_id != flight_id && n < prices.len()
            ==> counted_fare(prices, flight_id, n) == counted_fare(
            prices.drop_last(),
            flight_id,
            n,
        ),
    decreases prices.len(), n,
{
    if prices.len() > 0 {
        let shorter = prices.drop_last();
        if prices.last().flight_id != flight_id && n < prices.len() {
            if n > 0 {
                lemma_counted_fare_is_last(prices, flight_id, (n - 1) as nat);
                let i = n - 1;
                assert(shorter[i] == prices[i]);
                if prices[i].flight_id == flight_id {
                    if counts(prices, i) {
                        assert forall|j: int| i < j < shorter.len() implies (
                        #[trigger] shorter[j]).flight_id != shorter[i].flight_id by {
                            assert(prices[j].flight_id != prices[i].flight_id);
                        }
                    }
                    if counts(shorter, i) {
                        assert forall|j: int| i < j < prices.len() implies (
                        #[trigger] prices[j]).flight_id != prices[i].flight_id by {
                            if j < shorter.len() {
                                assert(shorter[j].flight_id != shorter[i].flight_id);
                            }
                        }
                    }
                }
            }
        }
        if n == prices.len() {
            if prices.last().flight_id == flight_id {
                assert(counts(prices, n - 1));
            } else {
                lemma_counted_fare_is_last(prices, flight_id, (n - 1) as nat);
                lemma_counted_fare_is_last(shorter, flight_id, (n - 1) as nat);
            }
        }
    }
}

/// Reading one more fare changes the total by that fare, less the fare
/// that its flight had in the table.
pub proof fn lemma_total_price_push(prices: Seq<FlightPrice>, fare: FlightPrice)
    ensures
        total_price_of(prices.push(fare)) == total_price_of(prices) - fare_in(
            price_table_of(prices),
            fare.flight_id,
        ) + fare.amount,
{
    let longer = prices.push(fare);
    lemma_total_of_push(prices, fare, prices.len());
    lemma_counted_fare_is_last(prices, fare.flight_id, prices.len());
    assert(counts(longer, prices.len() as int));
    if !has_fare(prices, fare.flight_id) {
        lemma_no_fare(prices, fare.flight_id);
    }
}

/// A flight for which no fare was read has no last fare.
proof fn lemma_no_fare(prices: Seq<FlightPrice>, flight_id: i32)
    requires
        !has_fare(prices, flight_id),
    ensures
        last_fare(prices, flight_id) == 0,
    decreases prices.len(),
{
    if prices.len() > 0 {
        assert(prices[prices.len() - 1].flight_id != flight_id);
        assert forall|i: int| 0 <= i < prices.drop_last().len() implies (
        #[trigger] prices.drop_last()[i]).flight_id != flight_id by {
            assert(prices[i].flight_id != flight_id);
        }
        lemma_no_fare(prices.drop_last(), flight_id);
    }
}

/// Reads the fares into a table by flight, and adds up the table: the sum
/// comes with it, or `None` where it does not fit an amount.
pub fn collect_prices(prices: &Vec<FlightPrice>) -> (collected: (HashMap<i32, i32>, Option<i32>))
    ensures
        collected.0@ == price_table_of(prices@),
        match collected.1 {
            Some(sum) => sum == total_price_of(prices@),
            None => !(i32::MIN <= total_price_of(prices@) <= i32::MAX),
        },
{
    let mut table: HashMap<i32, i32> = HashMap::new();
    let mut sum: i128 = 0;
    let mut i: usize = 0;
    while i < prices.len()
        invariant
            i <= prices.len(),
            table@ == price_table_of(prices@.take(i as int)),
            sum == total_price_of(prices@.take(i as int)),
            -0x1_0000_0000 * i <= sum <= 0x1_0000_0000 * i,
        decreases prices.len() - i,
    {
        let fare = prices[i];
        proof {
            assert(prices@.take(i + 1) =~= prices@.take(i as int).push(fare));
            lemma_price_table_push(prices@.take(i as int), fare);
            lemma_total_price_push(prices@.take(i as int), fare);
        }
        match table.insert(fare.flight_id, fare.amount) {
            Some(replaced) => {
                sum = sum - replaced as i128 + fare.amount as i128;
            },
            None => {
                sum = sum + fare.amount as i128;
            },
        }
        i += 1;
    }
    assert(prices@.take(prices.len() as int) =~= prices@);
    if sum < i32::MIN as i128 || sum > i32::MAX as i128 {
        (table, None)
    } else {
        (table, Some(sum as i32))
    }
}

/// What the flight costs by the table: its fare, and 0 where the table has
/// none for it.
pub fn flight_price(table: &HashMap<i32, i32>, flight_id: i32) -> (amount: i32)
    ensures
        amount == fare_in(table@, flight_id),
{
    match table.get(&flight_id) {
        Some(amount) => *amount,
        None => 0,
    }
}

/// The sum of the fares, one for each flight that has any, or `None` where
/// the sum does not fit an amount.
pub fn total_price(prices: &Vec<FlightPrice>) -> (total: Option<i32>)
    ensures
        match total {
            Some(sum) => sum == total_price_of(prices@),
            None => !(i32::MIN <= total_price_of(prices@) <= i32::MAX),
        },
{
    collect_prices(prices).1
}

/// The text of one hexadecimal digit.
fn hex_digit_text(digit: u8) -> (text: &'static str)
    requires
        digit < 16,
    ensures
        text@ == seq![hex_digit(digit as int)],
{
    proof {
        reveal_strlit("0");
        reveal_strlit("1");
        reveal_strlit("2");
        reveal_strlit("3");
        reveal_strlit("4");
        reveal_strlit("5");
        reveal_strlit("6");
        reveal_strlit("7");
        reveal_strlit("8");
        reveal_strlit("9");
        reveal_strlit("A");
        reveal_strlit("B");
        reveal_strlit("C");
        reveal_strlit("D");
        reveal_strlit("E");
        reveal_strlit("F");
    }
    let text = match digit {
        0 => "0",
        1 => "1",
        2 => "2",
        3 => "3",
        4 => "4",
        5 => "5",
        6 => "6",
        7 => "7",
        8 => "8",
        9 => "9",
        10 => "A",
        11 => "B",
        12 => "C",
        13 => "D",
        14 => "E",
        _ => "F",
    };
    text
}

/// `prefix` followed by `value` in upper-case hexadecimal.
fn with_hex_suffix(prefix: &str, value: u8) -> (text: String)
    ensures
        text@ == prefix@ + upper_hex(value),
{
    let text = prefix.to_owned();
    if value < 16 {
        text.concat(hex_digit_text(value))
    } else {
        let text = text.concat(hex_digit_text(value / 16)).concat(hex_digit_text(value % 16));
        text
    }
}

/// The reference of a booking: `_FFF` and the suffix in hexadecimal.
pub fn booking_reference(suffix: u8) -> (reference: String)
    ensures
        reference@ == booking_reference_of(suffix),
{
    with_hex_suffix("_FFF", suffix)
}

/// The number of a ticket: `_9999999999` and the suffix in hexadecimal.
pub fn ticket_number(suffix: u8) -> (number: String)
    ensures
        number@ == ticket_number_of(suffix),
{
    with_hex_suffix("_9999999999", suffix)
}

/// Makes the entries of a booking whose reference and ticket number end in
/// the given suffixes.
pub fn plan_booking(
    parameters: CreateBookingParameters,
    prices: &Vec<FlightPrice>,
    reference_suffix: u8,
    ticket_suffix: u8,
) -> (result: Result<BookingEntries, BookingError>)
    ensures
        books(parameters, prices@, reference_suffix, ticket_suffix, result),
{
    let (table, total) = collect_prices(prices);
    let total_amount: i32 = match total {
        Some(sum) => sum,
        None => {
            return Err(BookingError::TotalOutOfRange);
        },
    };
    let mut ticket_flights: Vec<TicketFlight> = Vec::new();
    let mut i: usize = 0;
    while i < parameters.flight_ids.len()
        invariant
            i <= parameters.flight_ids.len(),
            table@ == price_table_of(prices@),
            ticket_flights@ == ticket_flights_of(
                parameters.flight_ids@.take(i as int),
                parameters.fare_conditions,
                prices@,
            ),
        decreases parameters.flight_ids.len() - i,
    {
        let flight_id: i32 = parameters.flight_ids[i];
        let amount: i32 = flight_price(&table, flight_id);
        ticket_flights.push(
            TicketFlight { flight_id, fare_conditions: parameters.fare_conditions, amount },
        );
        i += 1;
    }
    assert(parameters.flight_ids@.take(parameters.flight_ids.len() as int)
        =~= parameters.flight_ids@);
    Ok(
        BookingEntries {
            book_ref: booking_reference(reference_suffix),
            total_amount,
            ticket_no: ticket_number(ticket_suffix),
            passenger_id: parameters.passenger_id,
            passenger_name: parameters.passenger_name,
            ticket_flights,
        },
    )
}

/// The booking as it is reported to the one who asked for it.
pub fn booking_result(entries: &BookingEntries) -> (result: CreateBookingResult)
    ensures
        result.booking_id@ == entries.book_ref@,
        result.ticker_no@ == entries.ticket_no@,
        result.total_price == entries.total_amount,
{
    CreateBookingResult {
        booking_id: entries.book_ref.clone(),
        ticker_no: entries.ticket_no.clone(),
        total_price: entries.total_amount,
    }
}

/// `rand::rngs::ThreadRng`, carried from `rand::thread_rng` to
/// `Rng::gen_range` and never looked into.
#[verifier::external_type_specification]
#[verifier::external_body]
pub struct ExThreadRng(rand::rngs::ThreadRng);

/// `rand::thread_rng`: the random number generator of the running thread,
/// seeded by the system. Nothing is claimed of it.
#[verifier::external_body]
fn thread_generator() -> rand::rngs::ThreadRng {
    rand::thread_rng()
}

/// `Rng::gen_range` over `0..256`: some number of that range, which may
/// differ from call to call. Only the range is claimed.
#[verifier::external_body]
fn draw_suffix(generator: &mut rand::rngs::ThreadRng) -> (drawn: i32)
    ensures
        0 <= drawn < 256,
{
    generator.gen_range(0..256)
}

/// Makes the entries of a booking, with a reference and a ticket number
/// that end in suffixes drawn at random.
pub fn create_booking_entries(parameters: CreateBookingParameters, prices: &Vec<FlightPrice>) -> (result:
    Result<BookingEntries, BookingError>)
    ensures
        exists|reference_suffix: u8, ticket_suffix: u8|
            books(parameters, prices@, reference_suffix, ticket_suffix, result),
{
    let mut generator = thread_generator();
    let reference_suffix: u8 = draw_suffix(&mut generator) as u8;
    let ticket_suffix: u8 = draw_suffix(&mut generator) as u8;
    plan_booking(parameters, prices, reference_suffix, ticket_suffix)
}

} // verus!
