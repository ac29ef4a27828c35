//! Schedule-aware search: itineraries through a snapshot of flight instances,
//! grown leg by leg. Each expansion step continues every journey found so
//! far by every flight that may follow it.

use vstd::prelude::*;
use crate::calendar::CalendarDate;
use crate::error::SearchError;
use crate::flights::{
    airports_of, assemble, assembled, well_formed, Flight, FlightInstance, FlightRecord,
    FlightStatus, Itinerary,
};
use crate::journeys::{
    arrivals_within, arriving, continues, eligible, expand, extensions, in_connection_window,
    in_departure_window, is_itinerary, is_sound, itineraries, lemma_exhausted,
    lemma_itineraries_exact, lemma_journey_well_formed, lemma_level, lemma_listed_records_sound,
    lemma_records_add, lemma_records_contains, level, outcome, records, seeds, starts, Criteria,
    DEPARTURE_WINDOW,
};
use crate::neighbours::lists_airport;
use crate::types::{AirportCode, BookingClass};

verus! {

/// Seconds in an hour.
pub const SECONDS_PER_HOUR: i64 = 3_600;

/// What a search is asked for, with the departure window given by its first
/// instant and the connection times in seconds.
#[derive(Clone, Debug, PartialEq, Eq)]
pub struct SearchRequest {
    /// Airports at which an itinerary may start.
    pub sources: Vec<AirportCode>,
    /// Airports at which an itinerary may end.
    pub destinations: Vec<AirportCode>,
    /// First instant of the departure window.
    pub window_start: i64,
    /// The connection bound: an itinerary has no more legs than this.
    pub max_connections: i32,
    /// Shortest time between an arrival and the next departure, in seconds.
    pub connection_time_min: i64,
    /// Longest time between an arrival and the next departure, in seconds.
    pub connection_time_max: i64,
    /// Where given, only flights with a free seat in this class are flown.
    pub booking_class: Option<BookingClass>,
}

impl DeepView for SearchRequest {
    type V = Criteria;

    open spec fn deep_view(&self) -> Criteria {
        Criteria {
            origins: self.sources.deep_view(),
            destinations: self.destinations.deep_view(),
            window_start: self.window_start as int,
            max_legs: self.max_connections as int,
            connection_min: self.connection_time_min as int,
            connection_max: self.connection_time_max as int,
            booking_class: self.booking_class,
        }
    }
}

/// The journeys that a list of leg lists holds.
pub open spec fn legs_of(journeys: Seq<Vec<usize>>) -> Seq<Seq<usize>> {
    journeys.map_values(|legs: Vec<usize>| legs@)
}

/// Every journey of the list names flights of the snapshot only.
pub open spec fn all_well_formed(flights: Seq<Flight>, journeys: Seq<Vec<usize>>) -> bool {
    forall|i: int| 0 <= i < journeys.len() ==> well_formed(flights, (#[trigger] journeys[i])@)
}

/// `result` is the answer `expected`.
pub open spec fn answers(
    result: Result<Vec<FlightRecord>, SearchError>,
    expected: Result<Seq<Itinerary>, SearchError>,
) -> bool {
    match result {
        Ok(found) => expected == Ok::<Seq<Itinerary>, SearchError>(found.deep_view()),
        Err(error) => expected == Err::<Seq<Itinerary>, SearchError>(error),
    }
}

/// What a search by departure date is asked for, once the start of the day
/// is known: the connection times are given in hours.
pub open spec fn criteria_for(
    sources: Seq<Seq<char>>,
    destinations: Seq<Seq<char>>,
    window_start: int,
    max_connections: int,
    connection_hours_min: int,
    connection_hours_max: int,
    booking_class: Option<BookingClass>,
) -> Criteria {
    Criteria {
        origins: sources,
        destinations,
        window_start,
        max_legs: max_connections,
        connection_min: connection_hours_min * SECONDS_PER_HOUR,
        connection_max: connection_hours_max * SECONDS_PER_HOUR,
        booking_class,
    }
}

/// Whether `departure` lies in the departure window that opens at
/// `window_start`.
pub fn departs_in_window(window_start: i64, departure: i64) -> (inside: bool)
    ensures
        inside == in_departure_window(window_start as int, departure as int),
{
    let latest: i128 = window_start as i128 + DEPARTURE_WINDOW as i128;
    window_start <= departure && departure as i128 <= latest
}

/// Whether a flight that leaves at `departure` can be reached from one that
/// lands at `arrival`: the time between them is at least `connection_min`
/// and at most `connection_max`.
pub fn connects_in_time(
    arrival: i64,
    departure: i64,
    connection_min: i64,
    connection_max: i64,
) -> (inside: bool)
    ensures
        inside == in_connection_window(
            arrival as int,
            departure as int,
            connection_min as int,
            connection_max as int,
        ),
{
    let earliest: i128 = arrival as i128 + connection_min as i128;
    let latest: i128 = arrival as i128 + connection_max as i128;
    earliest <= departure as i128 && departure as i128 <= latest
}

/// Whether the flight may be flown at all.
pub fn is_eligible(flight: &FlightInstance, booking_class: Option<BookingClass>) -> (free: bool)
    ensures
        free == eligible(flight.deep_view(), booking_class),
{
    match flight.status {
        FlightStatus::Scheduled => match booking_class {
            Some(class) => flight.availability.offers(class),
            None => true,
        },
        _ => false,
    }
}

/// Whether the journey has visited `airport`.
pub fn journey_visits(flights: &Vec<FlightInstance>, legs: &Vec<usize>, airport: &String) -> (visited:
    bool)
    requires
        well_formed(flights.deep_view(), legs@),
    ensures
        visited == airports_of(flights.deep_view(), legs@).contains(airport@),
{
    let ghost visits = airports_of(flights.deep_view(), legs@);
    if flights[legs[0]].departure_airport == *airport {
        assert(visits[0] == airport@);
        return true;
    }
    let mut k: usize = 0;
    while k < legs.len()
        invariant
            k <= legs.len(),
            well_formed(flights.deep_view(), legs@),
            visits == airports_of(flights.deep_view(), legs@),
            forall|j: int| 0 <= j <= k ==> visits[j] != airport@,
        decreases legs.len() - k,
    {
        if flights[legs[k]].arrival_airport == *airport {
            assert(visits[k + 1] == airport@);
            return true;
        }
        k += 1;
    }
    false
}

/// Whether the flight at position `leg` can open a journey.
pub fn can_start(flights: &Vec<FlightInstance>, request: &SearchRequest, leg: usize) -> (open: bool)
    ensures
        open == starts(flights.deep_view(), request.deep_view(), leg),
{
    if leg >= flights.len() {
        return false;
    }
    let flight = &flights[leg];
    is_eligible(flight, request.booking_class) && lists_airport(
        &request.sources,
        &flight.departure_airport,
    ) && departs_in_window(request.window_start, flight.scheduled_departure) && !(
    flight.arrival_airport == flight.departure_airport)
}

/// Whether the flight at position `leg` can follow the journey `legs`.
pub fn can_continue(
    flights: &Vec<FlightInstance>,
    request: &SearchRequest,
    legs: &Vec<usize>,
    leg: usize,
) -> (onward: bool)
    requires
        well_formed(flights.deep_view(), legs@),
    ensures
        onward == continues(flights.deep_view(), request.deep_view(), legs@, leg),
{
    if leg >= flights.len() {
        return false;
    }
    let flight = &flights[leg];
    let last = &flights[legs[legs.len() - 1]];
    is_eligible(flight, request.booking_class) && flight.departure_airport == last.arrival_airport
        && connects_in_time(
        last.scheduled_arrival,
        flight.scheduled_departure,
        request.connection_time_min,
        request.connection_time_max,
    ) && !journey_visits(flights, legs, &flight.arrival_airport)
}

/// A copy of a journey.
fn copy_legs(legs: &Vec<usize>) -> (copy: Vec<usize>)
    ensures
        copy@ == legs@,
{
    let mut copy: Vec<usize> = Vec::new();
    let mut k: usize = 0;
    while k < legs.len()
        invariant
            k <= legs.len(),
            copy@ == legs@.take(k as int),
        decreases legs.len() - k,
    {
        copy.push(legs[k]);
        k += 1;
    }
    copy
}

/// The one-leg journeys: every flight of the snapshot that can open a
/// journey, in snapshot order.
pub fn opening_journeys(flights: &Vec<FlightInstance>, request: &SearchRequest) -> (frontier: Vec<
    Vec<usize>,
>)
    ensures
        legs_of(frontier@) == seeds(flights.deep_view(), request.deep_view(), flights.len() as nat),
{
    let mut frontier: Vec<Vec<usize>> = Vec::new();
    let mut leg: usize = 0;
    while leg < flights.len()
        invariant
            leg <= flights.len(),
            legs_of(frontier@) == seeds(flights.deep_view(), request.deep_view(), leg as nat),
        decreases flights.len() - leg,
    {
        if can_start(flights, request, leg) {
            let mut journey: Vec<usize> = Vec::new();
            journey.push(leg);
            frontier.push(journey);
        }
        leg += 1;
    }
    frontier
}

/// Appends to `next` every journey that continues `legs` by one flight, in
/// snapshot order.
fn continue_journey(
    flights: &Vec<FlightInstance>,
    request: &SearchRequest,
    legs: &Vec<usize>,
    next: &mut Vec<Vec<usize>>,
)
    requires
        well_formed(flights.deep_view(), legs@),
    ensures
        legs_of(final(next)@) == legs_of(old(next)@) + extensions(
            flights.deep_view(),
            request.deep_view(),
            legs@,
            flights.len() as nat,
        ),
{
    let ghost before = legs_of(next@);
    let mut leg: usize = 0;
    while leg < flights.len()
        invariant
            leg <= flights.len(),
            well_formed(flights.deep_view(), legs@),
            legs_of(next@) == before + extensions(
                flights.deep_view(),
                request.deep_view(),
                legs@,
                leg as nat,
            ),
        decreases flights.len() - leg,
    {
        let ghost so_far = legs_of(next@);
        if can_continue(flights, request, legs, leg) {
            let mut longer = copy_legs(legs);
            longer.push(leg);
            next.push(longer);
            assert(legs_of(next@) =~= so_far.push(legs@.push(leg)));
        }
        leg += 1;
    }
}

/// One expansion step: every journey of the frontier, continued by every
/// flight that can follow it.
pub fn expand_frontier(
    flights: &Vec<FlightInstance>,
    request: &SearchRequest,
    frontier: &Vec<Vec<usize>>,
) -> (next: Vec<Vec<usize>>)
    requires
        all_well_formed(flights.deep_view(), frontier@),
    ensures
        legs_of(next@) == expand(flights.deep_view(), request.deep_view(), legs_of(frontier@)),
{
    let ghost snapshot = flights.deep_view();
    let ghost criteria = request.deep_view();
    let ghost given = legs_of(frontier@);
    let mut next: Vec<Vec<usize>> = Vec::new();
    let mut i: usize = 0;
    while i < frontier.len()
        invariant
            i <= frontier.len(),
            snapshot == flights.deep_view(),
            criteria == request.deep_view(),
            given == legs_of(frontier@),
            all_well_formed(snapshot, frontier@),
            legs_of(next@) == expand(snapshot, criteria, given.take(i as int)),
        decreases frontier.len() - i,
    {
        continue_journey(flights, request, &frontier[i], &mut next);
        proof {
            assert(given.take(i + 1).drop_last() =~= given.take(i as int));
        }
        i += 1;
    }
    assert(given.take(frontier.len() as int) =~= given);
    next
}

/// Appends to `found` the record of every journey of the frontier that ends
/// at a destination.
fn report_arrivals(
    flights: &Vec<FlightInstance>,
    request: &SearchRequest,
    frontier: &Vec<Vec<usize>>,
    found: &mut Vec<FlightRecord>,
)
    requires
        all_well_formed(flights.deep_view(), frontier@),
    ensures
        final(found).deep_view() == old(found).deep_view() + records(
            flights.deep_view(),
            arriving(flights.deep_view(), request.deep_view(), legs_of(frontier@)),
        ),
{
    let ghost snapshot = flights.deep_view();
    let ghost criteria = request.deep_view();
    let ghost given = legs_of(frontier@);
    let ghost before = found.deep_view();
    let mut i: usize = 0;
    while i < frontier.len()
        invariant
            i <= frontier.len(),
            snapshot == flights.deep_view(),
            criteria == request.deep_view(),
            given == legs_of(frontier@),
            all_well_formed(snapshot, frontier@),
            found.deep_view() == before + records(
                snapshot,
                arriving(snapshot, criteria, given.take(i as int)),
            ),
        decreases frontier.len() - i,
    {
        let legs = &frontier[i];
        let ghost so_far = found.deep_view();
        proof {
            assert(given.take(i + 1).drop_last() =~= given.take(i as int));
        }
        let last = &flights[legs[legs.len() - 1]];
        if lists_airport(&request.destinations, &last.arrival_airport) {
            let record = assemble(flights, legs);
            found.push(record);
            assert(found.deep_view() =~= so_far.push(record.deep_view()));
        }
        i += 1;
    }
    assert(given.take(frontier.len() as int) =~= given);
}

/// Finds every itinerary through the snapshot of flights: it opens with a
/// scheduled flight that leaves one of the sources within the 24 hours from
/// `window_start`, each further leg leaves where the last arrived, within the
/// connection window, for an airport not yet visited, it has at most
/// `max_connections` legs, and it ends at one of the destinations. An
/// itinerary that goes on beyond a destination is listed at each destination
/// that it reaches. Itineraries of fewer legs come first; those of one
/// length follow the order of the snapshot.
///
/// A bound that is not positive is refused before any flight is read.
pub fn find_itineraries(flights: &Vec<FlightInstance>, request: &SearchRequest) -> (result: Result<
    Vec<FlightRecord>,
    SearchError,
>)
    ensures
        answers(result, outcome(flights.deep_view(), request.deep_view())),
        result matches Ok(found) ==> forall|record: Itinerary| #[trigger]
            found.deep_view().contains(record) <==> exists|legs: Seq<usize>| #[trigger]
                is_itinerary(flights.deep_view(), request.deep_view(), legs) && record
                    == assembled(flights.deep_view(), legs),
        result matches Ok(found) ==> forall|i: int|
            0 <= i < found.len() ==> is_sound(
                flights.deep_view(),
                request.deep_view(),
                #[trigger] found.deep_view()[i],
            ),
{
    if request.max_connections <= 0 {
        return Err(SearchError::InvalidMaxConnections);
    }
    if request.connection_time_min <= 0 || request.connection_time_max <= 0 {
        return Err(SearchError::InvalidConnectionTime);
    }
    let ghost snapshot = flights.deep_view();
    let ghost criteria = request.deep_view();
    let mut frontier = opening_journeys(flights, request);
    let mut found: Vec<FlightRecord> = Vec::new();
    let mut count: i32 = 1;
    proof {
        lemma_frontier_well_formed(snapshot, criteria, 1, frontier@);
    }
    report_arrivals(flights, request, &frontier, &mut found);
    assert(found.deep_view() =~= records(snapshot, arrivals_within(snapshot, criteria, 1))) by {
        assert(arrivals_within(snapshot, criteria, 0) =~= Seq::<Seq<usize>>::empty());
    }
    while count < request.max_connections && frontier.len() > 0
        invariant
            1 <= count <= request.max_connections,
            snapshot == flights.deep_view(),
            criteria == request.deep_view(),
            legs_of(frontier@) == level(snapshot, criteria, count as nat),
            all_well_formed(snapshot, frontier@),
            found.deep_view() == records(snapshot, arrivals_within(snapshot, criteria, count as nat)),
        decreases request.max_connections - count,
    {
        let ghost listed = arrivals_within(snapshot, criteria, count as nat);
        frontier = expand_frontier(flights, request, &frontier);
        count += 1;
        proof {
            assert(snapshot.len() == flights.len());
            lemma_frontier_well_formed(snapshot, criteria, count as nat, frontier@);
        }
        report_arrivals(flights, request, &frontier, &mut found);
        proof {
            lemma_records_add(
                snapshot,
                listed,
                arriving(snapshot, criteria, level(snapshot, criteria, count as nat)),
            );
        }
    }
    proof {
        if count < request.max_connections {
            lemma_exhausted(snapshot, criteria, count as nat, request.max_connections as nat);
        }
        let listed = itineraries(snapshot, criteria);
        lemma_listed_records_sound(snapshot, criteria);
        assert forall|record: Itinerary| #[trigger]
            found.deep_view().contains(record) <==> exists|legs: Seq<usize>| #[trigger]
                is_itinerary(snapshot, criteria, legs) && record == assembled(
                    snapshot,
                    legs,
                ) by {
            lemma_records_contains(snapshot, listed, record);
            if found.deep_view().contains(record) {
                let legs = choose|legs: Seq<usize>| #[trigger]
                    listed.contains(legs) && record == assembled(snapshot, legs);
                lemma_itineraries_exact(snapshot, criteria, legs);
            }
            if exists|legs: Seq<usize>| #[trigger]
                is_itinerary(snapshot, criteria, legs) && record == assembled(
                    snapshot,
                    legs,
                ) {
                let legs = choose|legs: Seq<usize>| #[trigger]
                    is_itinerary(snapshot, criteria, legs) && record == assembled(
                        snapshot,
                        legs,
                    );
                lemma_itineraries_exact(snapshot, criteria, legs);
            }
        }
    }
    Ok(found)
}

/// A search repeated on the same snapshot with the same request gives the
/// same answer: the same itineraries in the same order, or the same refusal.
pub proof fn lemma_search_repeatable(
    first: Result<Vec<FlightRecord>, SearchError>,
    second: Result<Vec<FlightRecord>, SearchError>,
    flights: Seq<Flight>,
    criteria: Criteria,
)
    requires
        answers(first, outcome(flights, criteria)),
        answers(second, outcome(flights, criteria)),
    ensures
        match (first, second) {
            (Ok(found), Ok(again)) => found.deep_view() == again.deep_view(),
            (Err(error), Err(again)) => error == again,
            _ => false,
        },
{
}

/// The journeys of a level name flights of the snapshot only.
proof fn lemma_frontier_well_formed(
    flights: Seq<Flight>,
    criteria: Criteria,
    count: nat,
    frontier: Seq<Vec<usize>>,
)
    requires
        flights.len() <= usize::MAX,
        legs_of(frontier) == level(flights, criteria, count),
    ensures
        all_well_formed(flights, frontier),
{
    assert forall|i: int| 0 <= i < frontier.len() implies well_formed(
        flights,
        (#[trigger] frontier[i])@,
    ) by {
        let legs = frontier[i]@;
        assert(legs_of(frontier)[i] == legs);
        assert(level(flights, criteria, count).contains(legs));
        lemma_level(flights, criteria, count, legs);
        lemma_journey_well_formed(flights, criteria, legs);
    }
}

/// Finds every itinerary that leaves one of the sources on the departure
/// date, counted from midnight UTC, and ends at one of the destinations. The
/// connection times are given in hours. A date that the calendar does not
/// have is refused; everything else is as in `find_itineraries`.
pub fn find_flights(
    flights: &Vec<FlightInstance>,
    sources: Vec<AirportCode>,
    destinations: Vec<AirportCode>,
    departure_date: CalendarDate,
    max_connections: i32,
    connection_time_min: i32,
    connection_time_max: i32,
    booking_class: Option<BookingClass>,
) -> (result: Result<Vec<FlightRecord>, SearchError>)
    ensures
        match departure_date.spec_midnight() {
            None => result matches Err(error) && error == SearchError::InvalidDate,
            Some(start) => answers(
                result,
                outcome(
                    flights.deep_view(),
                    criteria_for(
                        sources.deep_view(),
                        destinations.deep_view(),
                        start as int,
                        max_connections as int,
                        connection_time_min as int,
                        connection_time_max as int,
                        booking_class,
                    ),
                ),
            ),
        },
{
    match departure_date.midnight() {
        None => Err(SearchError::InvalidDate),
        Some(window_start) => {
            let request = SearchRequest {
                sources,
                destinations,
                window_start,
                max_connections,
                connection_time_min: connection_time_min as i64 * SECONDS_PER_HOUR,
                connection_time_max: connection_time_max as i64 * SECONDS_PER_HOUR,
                booking_class,
            };
            find_itineraries(flights, &request)
        },
    }
}

} // verus!
