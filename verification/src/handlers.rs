//! What the service is asked and what it answers, as plain values, and the
//! decisions that its handlers take between reading and answering.

use vstd::prelude::*;
use crate::calendar::CalendarDate;
use crate::error::{SearchError, SearchFailure};
use crate::find_flights::{criteria_for, find_flights};
use crate::flights::{Flight, FlightInstance, FlightRecord, Itinerary};
use crate::journeys::outcome;
use crate::types::{AirportCode, BookingClass, LocationType};

verus! {

/// A request for itineraries between two locations.
#[derive(Clone, Debug, PartialEq, Eq)]
pub struct ListRoutesParameters {
    pub source_type: LocationType,
    pub source: String,
    pub destination_type: LocationType,
    pub destination: String,
    pub max_connections: u8,
    /// Shortest connection, in hours.
    pub connection_time_min: u8,
    /// Longest connection, in hours.
    pub connection_time_max: u8,
    pub departure_date: CalendarDate,
    pub booking_class: BookingClass,
}

/// A request to book one passenger on a list of flights.
#[derive(Clone, Debug, PartialEq, Eq)]
pub struct CreateBookingParameters {
    pub passenger_name: String,
    pub passenger_id: String,
    pub flight_ids: Vec<i32>,
    pub fare_conditions: BookingClass,
}

/// The booking that was made.
#[derive(Clone, Debug, PartialEq, Eq)]
pub struct CreateBookingResult {
    pub booking_id: String,
    pub ticker_no: String,
    pub total_price: i32,
}

/// The airports that a location stands for.
pub open spec fn airport_codes_of(
    location_type: LocationType,
    location: Seq<char>,
    city_airports: Seq<Seq<char>>,
) -> Seq<Seq<char>> {
    match location_type {
        LocationType::CITY => city_airports,
        LocationType::AIRPORT => seq![location],
    }
}

/// The airports that a location stands for: an airport stands for itself, a
/// city for the airports within it. `city_airports` holds those airports
/// where the location is a city, and is not looked at where it is not.
pub fn convert_location_to_airport_codes(
    location_type: LocationType,
    location: String,
    city_airports: Vec<AirportCode>,
) -> (codes: Vec<AirportCode>)
    ensures
        codes.deep_view() == airport_codes_of(location_type, location@, city_airports.deep_view()),
{
    match location_type {
        LocationType::CITY => city_airports,
        LocationType::AIRPORT => {
            let mut codes: Vec<AirportCode> = Vec::new();
            codes.push(location);
            codes
        },
    }
}

/// How a request for itineraries is answered, once its two locations are
/// resolved to airports and the start of the departure date is known.
pub open spec fn routes_outcome(
    parameters: ListRoutesParameters,
    source_airports: Seq<Seq<char>>,
    destination_airports: Seq<Seq<char>>,
    flights: Seq<Flight>,
    require_free_seat: bool,
    window_start: int,
) -> Result<Seq<Itinerary>, SearchError> {
    outcome(
        flights,
        criteria_for(
            source_airports,
            destination_airports,
            window_start,
            parameters.max_connections as int,
            parameters.connection_time_min as int,
            parameters.connection_time_max as int,
            if require_free_seat {
                Some(parameters.booking_class)
            } else {
                None
            },
        ),
    )
}

/// Answers a request for itineraries, once its two locations are resolved
/// to airports and the flights are read. Flights that could not be read
/// fail the whole request with the failure of the read. The fare class of
/// the request gates the flights only where `require_free_seat` says so.
pub fn list_routes<E>(
    parameters: &ListRoutesParameters,
    source_airports: Vec<AirportCode>,
    destination_airports: Vec<AirportCode>,
    flights: Result<Vec<FlightInstance>, E>,
    require_free_seat: bool,
) -> (result: Result<Vec<FlightRecord>, SearchFailure<E>>)
    ensures
        match flights {
            Err(failure) => result matches Err(SearchFailure::DataAccess(handed)) && handed
                == failure,
            Ok(read) => match parameters.departure_date.spec_midnight() {
                None => result matches Err(SearchFailure::Refused(error)) && error
                    == SearchError::InvalidDate,
                Some(start) => match routes_outcome(
                    *parameters,
                    source_airports.deep_view(),
                    destination_airports.deep_view(),
                    read.deep_view(),
                    require_free_seat,
                    start as int,
                ) {
                    Ok(listed) => result matches Ok(found) && found.deep_view() == listed,
                    Err(refusal) => result matches Err(SearchFailure::Refused(error)) && error
                        == refusal,
                },
            },
        },
{
    let read = match flights {
        Ok(read) => read,
        Err(failure) => {
            return Err(SearchFailure::DataAccess(failure));
        },
    };
    let booking_class = if require_free_seat {
        Some(parameters.booking_class)
    } else {
        None
    };
    match find_flights(
        &read,
        source_airports,
        destination_airports,
        parameters.departure_date,
        parameters.max_connections as i32,
        parameters.connection_time_min as i32,
        parameters.connection_time_max as i32,
        booking_class,
    ) {
        Ok(found) => Ok(found),
        Err(refusal) => Err(SearchFailure::Refused(refusal)),
    }
}

} // verus!
