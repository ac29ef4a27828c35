//! Scheduled flights as the itinerary search reads them, and the record in
//! which it reports an itinerary.
//!
//! Instants are whole seconds since 1970-01-01 00:00:00 UTC, and durations
//! are whole seconds.

use vstd::prelude::*;
use crate::types::{AirportCode, BookingClass};

verus! {

/// Operational status of a flight. Only scheduled flights take part in a
/// search.
#[derive(Clone, Copy, Debug, PartialEq, Eq, Structural)]
pub enum FlightStatus {
    Scheduled,
    OnTime,
    Delayed,
    Departed,
    Arrived,
    Cancelled,
}

impl FlightStatus {
    /// The name under which the status is stored.
    pub open spec fn spec_name(self) -> Seq<char> {
        match self {
            FlightStatus::Scheduled => "Scheduled"@,
            FlightStatus::OnTime => "On Time"@,
            FlightStatus::Delayed => "Delayed"@,
            FlightStatus::Departed => "Departed"@,
            FlightStatus::Arrived => "Arrived"@,
            FlightStatus::Cancelled => "Cancelled"@,
        }
    }

    /// The status that is stored under `name`, if there is one.
    pub fn from_name(name: &String) -> (status: Option<FlightStatus>)
        ensures
            match status {
                Some(found) => found.spec_name() == name@,
                None => forall|other: FlightStatus| #[trigger] other.spec_name() != name@,
            },
    {
        if *name == FlightStatus::Scheduled.name() {
            Some(FlightStatus::Scheduled)
        } else if *name == FlightStatus::OnTime.name() {
            Some(FlightStatus::OnTime)
        } else if *name == FlightStatus::Delayed.name() {
            Some(FlightStatus::Delayed)
        } else if *name == FlightStatus::Departed.name() {
            Some(FlightStatus::Departed)
        } else if *name == FlightStatus::Arrived.name() {
            Some(FlightStatus::Arrived)
        } else if *name == FlightStatus::Cancelled.name() {
            Some(FlightStatus::Cancelled)
        } else {
            None
        }
    }

    /// The name under which the status is stored, as text.
    pub fn name(self) -> (text: String)
        ensures
            text@ == self.spec_name(),
    {
        match self {
            FlightStatus::Scheduled => "Scheduled".to_owned(),
            FlightStatus::OnTime => "On Time".to_owned(),
            FlightStatus::Delayed => "Delayed".to_owned(),
            FlightStatus::Departed => "Departed".to_owned(),
            FlightStatus::Arrived => "Arrived".to_owned(),
            FlightStatus::Cancelled => "Cancelled".to_owned(),
        }
    }
}

/// In which fare classes a flight still has a free seat.
#[derive(Clone, Copy, Debug, PartialEq, Eq, Structural)]
pub struct ClassAvailability {
    pub economy: bool,
    pub comfort: bool,
    pub business: bool,
}

impl ClassAvailability {
    /// A seat of `class` is free.
    pub open spec fn spec_offers(self, class: BookingClass) -> bool {
        match class {
            BookingClass::Economy => self.economy,
            BookingClass::Comfort => self.comfort,
            BookingClass::Business => self.business,
        }
    }

    /// Whether a seat of `class` is free.
    #[verifier::when_used_as_spec(spec_offers)]
    pub fn offers(self, class: BookingClass) -> (free: bool)
        ensures
            free == self.spec_offers(class),
    {
        match class {
            BookingClass::Economy => self.economy,
            BookingClass::Comfort => self.comfort,
            BookingClass::Business => self.business,
        }
    }
}

/// One scheduled occurrence of a flight.
#[derive(Clone, Debug, PartialEq, Eq)]
pub struct FlightInstance {
    pub flight_id: i32,
    pub departure_airport: AirportCode,
    pub arrival_airport: AirportCode,
    pub scheduled_departure: i64,
    pub scheduled_arrival: i64,
    pub status: FlightStatus,
    pub availability: ClassAvailability,
}

/// A flight instance as a mathematical value.
pub struct Flight {
    pub flight_id: i32,
    pub departure_airport: Seq<char>,
    pub arrival_airport: Seq<char>,
    pub scheduled_departure: int,
    pub scheduled_arrival: int,
    pub status: FlightStatus,
    pub availability: ClassAvailability,
}

impl DeepView for FlightInstance {
    type V = Flight;

    open spec fn deep_view(&self) -> Flight {
        Flight {
            flight_id: self.flight_id,
            departure_airport: self.departure_airport@,
            arrival_airport: self.arrival_airport@,
            scheduled_departure: self.scheduled_departure as int,
            scheduled_arrival: self.scheduled_arrival as int,
            status: self.status,
            availability: self.availability,
        }
    }
}

/// An itinerary as it is returned: the airports in the order visited, the
/// flights in the order flown, the departure of the first leg, the arrival of
/// the last, and the number of connections between legs.
#[derive(Clone, Debug, PartialEq, Eq)]
pub struct FlightRecord {
    pub path: Vec<AirportCode>,
    pub flight_ids: Vec<i32>,
    pub departure_time: i64,
    pub arrival_time: i64,
    pub connections: usize,
}

/// A returned itinerary as a mathematical value.
pub struct Itinerary {
    pub path: Seq<Seq<char>>,
    pub flight_ids: Seq<i32>,
    pub departure_time: int,
    pub arrival_time: int,
    pub connections: int,
}

impl DeepView for FlightRecord {
    type V = Itinerary;

    open spec fn deep_view(&self) -> Itinerary {
        Itinerary {
            path: self.path.deep_view(),
            flight_ids: self.flight_ids@,
            departure_time: self.departure_time as int,
            arrival_time: self.arrival_time as int,
            connections: self.connections as int,
        }
    }
}

/// Every leg names a flight of the snapshot, and there is at least one leg.
pub open spec fn well_formed(flights: Seq<Flight>, legs: Seq<usize>) -> bool {
    &&& legs.len() >= 1
    &&& forall|k: int| 0 <= k < legs.len() ==> #[trigger] legs[k] < flights.len()
}

/// The airports of a journey in the order visited: where the first leg
/// departs, then where each leg arrives.
pub open spec fn airports_of(flights: Seq<Flight>, legs: Seq<usize>) -> Seq<Seq<char>> {
    seq![flights[legs[0] as int].departure_airport] + legs.map_values(
        |leg: usize| flights[leg as int].arrival_airport,
    )
}

/// The identifiers of the flights of a journey in the order flown.
pub open spec fn flight_ids_of(flights: Seq<Flight>, legs: Seq<usize>) -> Seq<i32> {
    legs.map_values(|leg: usize| flights[leg as int].flight_id)
}

/// The itinerary that a journey is reported as.
pub open spec fn assembled(flights: Seq<Flight>, legs: Seq<usize>) -> Itinerary {
    Itinerary {
        path: airports_of(flights, legs),
        flight_ids: flight_ids_of(flights, legs),
        departure_time: flights[legs[0] as int].scheduled_departure,
        arrival_time: flights[legs.last() as int].scheduled_arrival,
        connections: legs.len() - 1,
    }
}

/// A journey that grows by a leg visits one more airport.
pub proof fn lemma_airports_of_push(flights: Seq<Flight>, legs: Seq<usize>, leg: usize)
    requires
        legs.len() >= 1,
    ensures
        airports_of(flights, legs.push(leg)) == airports_of(flights, legs).push(
            flights[leg as int].arrival_airport,
        ),
        airports_of(flights, legs).len() == legs.len() + 1,
{
    assert(airports_of(flights, legs.push(leg)) =~= airports_of(flights, legs).push(
        flights[leg as int].arrival_airport,
    ));
}

/// Turns an accepted journey, given as the positions of its legs in the
/// snapshot, into the record that is returned.
pub fn assemble(flights: &Vec<FlightInstance>, legs: &Vec<usize>) -> (record: FlightRecord)
    requires
        well_formed(flights.deep_view(), legs@),
    ensures
        record.deep_view() == assembled(flights.deep_view(), legs@),
{
    let ghost snapshot = flights.deep_view();
    let first = &flights[legs[0]];
    let last = &flights[legs[legs.len() - 1]];
    let mut path: Vec<AirportCode> = Vec::new();
    let mut flight_ids: Vec<i32> = Vec::new();
    path.push(first.departure_airport.clone());
    let mut k: usize = 0;
    while k < legs.len()
        invariant
            k <= legs.len(),
            snapshot == flights.deep_view(),
            well_formed(snapshot, legs@),
            path.len() == k + 1,
            flight_ids.len() == k,
            path@[0]@ == snapshot[legs@[0] as int].departure_airport,
            forall|j: int| 0 <= j < k ==> (#[trigger] path@[j + 1])@ == snapshot[legs@[j] as int].arrival_airport,
            forall|j: int| 0 <= j < k ==> #[trigger] flight_ids@[j] == snapshot[legs@[j] as int].flight_id,
        decreases legs.len() - k,
    {
        let flight = &flights[legs[k]];
        path.push(flight.arrival_airport.clone());
        flight_ids.push(flight.flight_id);
        k += 1;
    }
    let record = FlightRecord {
        path,
        flight_ids,
        departure_time: first.scheduled_departure,
        arrival_time: last.scheduled_arrival,
        connections: legs.len() - 1,
    };
    proof {
        let expected = assembled(snapshot, legs@);
        assert(record.deep_view().path =~= expected.path) by {
            assert forall|j: int| 0 <= j < expected.path.len() implies record.path.deep_view()[j]
                == expected.path[j] by {
                if j > 0 {
                    assert(record.path@[(j - 1) + 1]@ == snapshot[legs@[j - 1] as int].arrival_airport);
                }
            }
        }
        assert(record.deep_view().flight_ids =~= expected.flight_ids);
    }
    record
}

} // verus!
