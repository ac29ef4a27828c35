use flight_search::booking::{
    booking_reference, booking_result, collect_prices, create_booking_entries, flight_price,
    plan_booking, ticket_number, total_price, BookingError, FlightPrice, TicketFlight,
};
use flight_search::handlers::CreateBookingParameters;
use flight_search::types::BookingClass;

fn fare(flight_id: i32, amount: i32) -> FlightPrice {
    FlightPrice { flight_id, amount }
}

fn parameters(flight_ids: Vec<i32>) -> CreateBookingParameters {
    CreateBookingParameters {
        passenger_name: "ANNA IVANOVA".to_string(),
        passenger_id: "1234 567890".to_string(),
        flight_ids,
        fare_conditions: BookingClass::Comfort,
    }
}

#[test]
fn reference_ends_in_upper_case_hexadecimal() {
    assert_eq!(booking_reference(0), "_FFF0");
    assert_eq!(booking_reference(9), "_FFF9");
    assert_eq!(booking_reference(10), "_FFFA");
    assert_eq!(booking_reference(15), "_FFFF");
    assert_eq!(booking_reference(16), "_FFF10");
    assert_eq!(booking_reference(171), "_FFFAB");
    assert_eq!(booking_reference(255), "_FFFFF");
    assert_eq!(ticket_number(0), "_99999999990");
    assert_eq!(ticket_number(31), "_99999999991F");
    assert_eq!(ticket_number(255), "_9999999999FF");
}

#[test]
fn reference_agrees_with_the_formatter_for_every_suffix() {
    for suffix in 0..=255u8 {
        assert_eq!(booking_reference(suffix), format!("_FFF{:X}", suffix));
        assert_eq!(ticket_number(suffix), format!("_9999999999{:X}", suffix));
    }
}

#[test]
fn flight_without_fare_costs_nothing() {
    let (table, total) = collect_prices(&vec![fare(1, 100), fare(2, 250)]);
    assert_eq!(flight_price(&table, 1), 100);
    assert_eq!(flight_price(&table, 2), 250);
    assert_eq!(flight_price(&table, 3), 0);
    assert_eq!(total, Some(350));
    assert_eq!(table.len(), 2);
    let (empty, nothing) = collect_prices(&Vec::new());
    assert_eq!(flight_price(&empty, 1), 0);
    assert_eq!(nothing, Some(0));
}

#[test]
fn last_fare_of_a_flight_counts() {
    let prices = vec![fare(1, 100), fare(2, 250), fare(1, 130), fare(3, 7), fare(2, 250)];
    let (table, total) = collect_prices(&prices);
    assert_eq!(flight_price(&table, 1), 130);
    assert_eq!(flight_price(&table, 2), 250);
    assert_eq!(table.len(), 3);
    assert_eq!(total, Some(387));
    assert_eq!(total_price(&prices), Some(387));
}

#[test]
fn replaced_fare_does_not_count_towards_the_range() {
    let prices = vec![fare(1, i32::MAX), fare(2, 5), fare(1, 10)];
    assert_eq!(total_price(&prices), Some(15));
    let prices = vec![fare(1, 10), fare(2, 5), fare(1, i32::MAX)];
    assert_eq!(total_price(&prices), None);
}

#[test]
fn total_is_the_sum_of_the_fares() {
    assert_eq!(total_price(&Vec::new()), Some(0));
    assert_eq!(total_price(&vec![fare(7, 4200)]), Some(4200));
    assert_eq!(total_price(&vec![fare(1, 100), fare(2, 250), fare(3, 50)]), Some(400));
    assert_eq!(total_price(&vec![fare(1, i32::MAX), fare(2, -1)]), Some(i32::MAX - 1));
    assert_eq!(total_price(&vec![fare(1, i32::MAX), fare(2, 1), fare(3, -1)]), Some(i32::MAX));
}

#[test]
fn total_out_of_range_is_refused() {
    let prices = vec![fare(1, i32::MAX), fare(2, 1)];
    assert_eq!(total_price(&prices), None);
    assert_eq!(total_price(&vec![fare(1, i32::MIN), fare(2, -1)]), None);
    assert_eq!(plan_booking(parameters(vec![1, 2]), &prices, 1, 2), Err(BookingError::TotalOutOfRange));
    assert_eq!(create_booking_entries(parameters(vec![1]), &prices), Err(BookingError::TotalOutOfRange));
    assert_eq!(BookingError::TotalOutOfRange.message(), "The total price is out of range");
}

#[test]
fn booking_writes_one_entry_for_each_flight_asked_for() {
    let prices = vec![fare(10, 3000), fare(20, 4500)];
    let entries = plan_booking(parameters(vec![20, 10, 30]), &prices, 0xAB, 0x07).unwrap();
    assert_eq!(entries.book_ref, "_FFFAB");
    assert_eq!(entries.ticket_no, "_99999999997");
    assert_eq!(entries.total_amount, 7500);
    assert_eq!(entries.passenger_name, "ANNA IVANOVA");
    assert_eq!(entries.passenger_id, "1234 567890");
    assert_eq!(
        entries.ticket_flights,
        vec![
            TicketFlight { flight_id: 20, fare_conditions: BookingClass::Comfort, amount: 4500 },
            TicketFlight { flight_id: 10, fare_conditions: BookingClass::Comfort, amount: 3000 },
            TicketFlight { flight_id: 30, fare_conditions: BookingClass::Comfort, amount: 0 },
        ]
    );
    let result = booking_result(&entries);
    assert_eq!(result.booking_id, "_FFFAB");
    assert_eq!(result.ticker_no, "_99999999997");
    assert_eq!(result.total_price, 7500);
}

#[test]
fn total_counts_fares_of_flights_not_asked_for() {
    // The total is that of the fares read, whichever flights are asked for.
    let prices = vec![fare(10, 3000), fare(20, 4500)];
    let entries = plan_booking(parameters(vec![10]), &prices, 1, 1).unwrap();
    assert_eq!(entries.total_amount, 7500);
    assert_eq!(entries.ticket_flights.len(), 1);
}

#[test]
fn drawn_suffixes_are_bytes_in_hexadecimal() {
    let prices = vec![fare(10, 3000)];
    for _ in 0..200 {
        let entries = create_booking_entries(parameters(vec![10]), &prices).unwrap();
        let reference = entries.book_ref.strip_prefix("_FFF").unwrap();
        let number = entries.ticket_no.strip_prefix("_9999999999").unwrap();
        for suffix in [reference, number] {
            assert!(!suffix.is_empty() && suffix.len() <= 2);
            assert!(u8::from_str_radix(suffix, 16).is_ok());
            assert_eq!(suffix.to_uppercase(), suffix);
            assert!(suffix.len() == 1 || !suffix.starts_with('0'));
        }
        assert_eq!(entries.total_amount, 3000);
        assert_eq!(entries.ticket_flights.len(), 1);
    }
}

#[test]
fn suffixes_vary_from_draw_to_draw() {
    let prices = vec![fare(10, 3000)];
    let first = create_booking_entries(parameters(vec![10]), &prices).unwrap().book_ref;
    let mut differs = false;
    for _ in 0..200 {
        if create_booking_entries(parameters(vec![10]), &prices).unwrap().book_ref != first {
            differs = true;
        }
    }
    assert!(differs);
}
