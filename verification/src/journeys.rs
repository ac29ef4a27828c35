//! What the schedule-aware search is asked for and what it answers, as
//! mathematics: which sequences of flights are journeys, which journeys are
//! itineraries, and in which order the search lists them.
//!
//! A journey is written as the positions of its legs in the snapshot of
//! flights.

use vstd::prelude::*;
use crate::error::SearchError;
use crate::flights::{
    airports_of, assembled, lemma_airports_of_push, well_formed, Flight, FlightStatus, Itinerary,
};
use crate::types::BookingClass;

verus! {

/// Length of the departure window, in seconds: the first leg leaves within
/// the 24 hours that follow the start of the window.
pub const DEPARTURE_WINDOW: i64 = 86_400;

/// What a search is asked for.
pub struct Criteria {
    /// Airports at which an itinerary may start.
    pub origins: Seq<Seq<char>>,
    /// Airports at which an itinerary may end.
    pub destinations: Seq<Seq<char>>,
    /// First instant of the departure window.
    pub window_start: int,
    /// Largest number of legs of an itinerary.
    pub max_legs: int,
    /// Shortest time between an arrival and the next departure.
    pub connection_min: int,
    /// Longest time between an arrival and the next departure.
    pub connection_max: int,
    /// Where given, only flights with a free seat in this class are flown.
    pub booking_class: Option<BookingClass>,
}

/// The flight may be flown at all: it is scheduled and, where a fare class is
/// asked for, has a free seat in it.
pub open spec fn eligible(flight: Flight, booking_class: Option<BookingClass>) -> bool {
    &&& flight.status == FlightStatus::Scheduled
    &&& booking_class matches Some(class) ==> flight.availability.spec_offers(class)
}

/// `departure` lies in the window that opens at `window_start`, both ends
/// included.
pub open spec fn in_departure_window(window_start: int, departure: int) -> bool {
    window_start <= departure <= window_start + DEPARTURE_WINDOW
}

/// `departure` lies in the connection window after `arrival`, both ends
/// included.
pub open spec fn in_connection_window(
    arrival: int,
    departure: int,
    connection_min: int,
    connection_max: int,
) -> bool {
    arrival + connection_min <= departure <= arrival + connection_max
}

/// The flight at position `leg` can open a journey.
pub open spec fn starts(flights: Seq<Flight>, criteria: Criteria, leg: usize) -> bool {
    &&& leg < flights.len()
    &&& eligible(flights[leg as int], criteria.booking_class)
    &&& criteria.origins.contains(flights[leg as int].departure_airport)
    &&& in_departure_window(criteria.window_start, flights[leg as int].scheduled_departure)
    &&& flights[leg as int].arrival_airport != flights[leg as int].departure_airport
}

/// The flight at position `leg` can follow the journey `legs`: it leaves
/// where the journey has arrived, within the connection window, for an
/// airport that the journey has not visited.
pub open spec fn continues(
    flights: Seq<Flight>,
    criteria: Criteria,
    legs: Seq<usize>,
    leg: usize,
) -> bool {
    &&& legs.len() >= 1
    &&& leg < flights.len()
    &&& eligible(flights[leg as int], criteria.booking_class)
    &&& flights[leg as int].departure_airport == flights[legs.last() as int].arrival_airport
    &&& !airports_of(flights, legs).contains(flights[leg as int].arrival_airport)
    &&& in_connection_window(
        flights[legs.last() as int].scheduled_arrival,
        flights[leg as int].scheduled_departure,
        criteria.connection_min,
        criteria.connection_max,
    )
}

/// `legs` is a journey: its first leg opens it, and each further leg
/// follows what came before.
pub open spec fn is_journey(flights: Seq<Flight>, criteria: Criteria, legs: Seq<usize>) -> bool {
    &&& legs.len() >= 1
    &&& starts(flights, criteria, legs[0])
    &&& forall|k: int|
        1 <= k < legs.len() ==> continues(flights, criteria, legs.take(k), #[trigger] legs[k])
}

/// The journey ends at one of the destinations.
pub open spec fn arrives(flights: Seq<Flight>, criteria: Criteria, legs: Seq<usize>) -> bool {
    legs.len() >= 1 && criteria.destinations.contains(flights[legs.last() as int].arrival_airport)
}

/// `legs` is an itinerary: a journey of no more legs than allowed that ends
/// at a destination.
pub open spec fn is_itinerary(flights: Seq<Flight>, criteria: Criteria, legs: Seq<usize>) -> bool {
    &&& is_journey(flights, criteria, legs)
    &&& legs.len() <= criteria.max_legs
    &&& arrives(flights, criteria, legs)
}

/// The one-leg journeys that open with one of the first `n` flights, in
/// snapshot order.
pub open spec fn seeds(flights: Seq<Flight>, criteria: Criteria, n: nat) -> Seq<Seq<usize>>
    decreases n,
{
    if n == 0 {
        Seq::empty()
    } else {
        let before = seeds(flights, criteria, (n - 1) as nat);
        if starts(flights, criteria, (n - 1) as usize) {
            before.push(seq![(n - 1) as usize])
        } else {
            before
        }
    }
}

/// The journeys that continue `legs` by one of the first `n` flights, in
/// snapshot order.
pub open spec fn extensions(
    flights: Seq<Flight>,
    criteria: Criteria,
    legs: Seq<usize>,
    n: nat,
) -> Seq<Seq<usize>>
    decreases n,
{
    if n == 0 {
        Seq::empty()
    } else {
        let before = extensions(flights, criteria, legs, (n - 1) as nat);
        if continues(flights, criteria, legs, (n - 1) as usize) {
            before.push(legs.push((n - 1) as usize))
        } else {
            before
        }
    }
}

/// One expansion step: every journey of `frontier`, continued by every
/// flight that can follow it.
pub open spec fn expand(
    flights: Seq<Flight>,
    criteria: Criteria,
    frontier: Seq<Seq<usize>>,
) -> Seq<Seq<usize>>
    decreases frontier.len(),
{
    if frontier.len() == 0 {
        Seq::empty()
    } else {
        expand(flights, criteria, frontier.drop_last()) + extensions(
            flights,
            criteria,
            frontier.last(),
            flights.len(),
        )
    }
}

/// The journeys of exactly `legs` legs, in the order in which the expansion
/// produces them.
pub open spec fn level(flights: Seq<Flight>, criteria: Criteria, legs: nat) -> Seq<Seq<usize>>
    decreases legs,
{
    if legs == 0 {
        Seq::empty()
    } else if legs == 1 {
        seeds(flights, criteria, flights.len())
    } else {
        expand(flights, criteria, level(flights, criteria, (legs - 1) as nat))
    }
}

/// Those of `journeys` that end at a destination, in the same order.
pub open spec fn arriving(
    flights: Seq<Flight>,
    criteria: Criteria,
    journeys: Seq<Seq<usize>>,
) -> Seq<Seq<usize>>
    decreases journeys.len(),
{
    if journeys.len() == 0 {
        Seq::empty()
    } else {
        let before = arriving(flights, criteria, journeys.drop_last());
        if arrives(flights, criteria, journeys.last()) {
            before.push(journeys.last())
        } else {
            before
        }
    }
}

/// The journeys of at most `legs` legs that end at a destination: shorter
/// ones first, and among those of one length in the order of `level`.
pub open spec fn arrivals_within(
    flights: Seq<Flight>,
    criteria: Criteria,
    legs: nat,
) -> Seq<Seq<usize>>
    decreases legs,
{
    if legs == 0 {
        Seq::empty()
    } else {
        arrivals_within(flights, criteria, (legs - 1) as nat) + arriving(
            flights,
            criteria,
            level(flights, criteria, legs),
        )
    }
}

/// Every itinerary, in the order in which the search lists them.
pub open spec fn itineraries(flights: Seq<Flight>, criteria: Criteria) -> Seq<Seq<usize>> {
    if criteria.max_legs <= 0 {
        Seq::empty()
    } else {
        arrivals_within(flights, criteria, criteria.max_legs as nat)
    }
}

/// The records of a list of journeys.
pub open spec fn records(flights: Seq<Flight>, journeys: Seq<Seq<usize>>) -> Seq<Itinerary> {
    journeys.map_values(|legs: Seq<usize>| assembled(flights, legs))
}

/// How a search answers: it refuses a bound that is not positive, and else
/// lists the record of every itinerary.
pub open spec fn outcome(flights: Seq<Flight>, criteria: Criteria) -> Result<
    Seq<Itinerary>,
    SearchError,
> {
    if criteria.max_legs <= 0 {
        Err(SearchError::InvalidMaxConnections)
    } else if criteria.connection_min <= 0 || criteria.connection_max <= 0 {
        Err(SearchError::InvalidConnectionTime)
    } else {
        Ok(records(flights, itineraries(flights, criteria)))
    }
}

/// A one-leg journey is among the seeds exactly if its flight opens it.
pub proof fn lemma_seeds(flights: Seq<Flight>, criteria: Criteria, n: nat, legs: Seq<usize>)
    requires
        n <= flights.len() <= usize::MAX,
    ensures
        seeds(flights, criteria, n).contains(legs) <==> (legs.len() == 1 && legs[0] < n && starts(
            flights,
            criteria,
            legs[0],
        )),
    decreases n,
{
    if n > 0 {
        let before = seeds(flights, criteria, (n - 1) as nat);
        let all = seeds(flights, criteria, n);
        let leg = (n - 1) as usize;
        lemma_seeds(flights, criteria, (n - 1) as nat, legs);
        if all.contains(legs) {
            let i = choose|i: int| 0 <= i < all.len() && all[i] == legs;
            if i < before.len() {
                assert(before[i] == legs);
            }
        }
        if legs.len() == 1 && legs[0] < n && starts(flights, criteria, legs[0]) {
            if legs[0] < n - 1 {
                let i = choose|i: int| 0 <= i < before.len() && before[i] == legs;
                assert(all[i] == legs);
            } else {
                assert(legs =~= seq![leg]);
                assert(all[before.len() as int] == legs);
            }
        }
    }
}

/// A journey is among the extensions of `parent` exactly if it is `parent`
/// with one more leg that can follow it.
pub proof fn lemma_extensions(
    flights: Seq<Flight>,
    criteria: Criteria,
    parent: Seq<usize>,
    n: nat,
    legs: Seq<usize>,
)
    requires
        n <= flights.len() <= usize::MAX,
    ensures
        extensions(flights, criteria, parent, n).contains(legs) <==> (legs.len() == parent.len() + 1
            && legs.drop_last() == parent && legs.last() < n && continues(
            flights,
            criteria,
            parent,
            legs.last(),
        )),
    decreases n,
{
    if n > 0 {
        let before = extensions(flights, criteria, parent, (n - 1) as nat);
        let all = extensions(flights, criteria, parent, n);
        let leg = (n - 1) as usize;
        lemma_extensions(flights, criteria, parent, (n - 1) as nat, legs);
        assert(parent.push(leg).drop_last() =~= parent);
        if all.contains(legs) {
            let i = choose|i: int| 0 <= i < all.len() && all[i] == legs;
            if i < before.len() {
                assert(before[i] == legs);
            }
        }
        if legs.len() == parent.len() + 1 && legs.drop_last() == parent && legs.last() < n
            && continues(flights, criteria, parent, legs.last()) {
            if legs.last() < n - 1 {
                let i = choose|i: int| 0 <= i < before.len() && before[i] == legs;
                assert(all[i] == legs);
            } else {
                assert(legs =~= parent.push(leg));
                assert(all[before.len() as int] == legs);
            }
        }
    }
}

/// A journey comes out of an expansion step exactly if it is a journey of
/// the frontier with one more leg that can follow it.
pub proof fn lemma_expand(
    flights: Seq<Flight>,
    criteria: Criteria,
    frontier: Seq<Seq<usize>>,
    legs: Seq<usize>,
)
    requires
        flights.len() <= usize::MAX,
    ensures
        expand(flights, criteria, frontier).contains(legs) <==> (legs.len() >= 1
            && frontier.contains(legs.drop_last()) && continues(
            flights,
            criteria,
            legs.drop_last(),
            legs.last(),
        )),
    decreases frontier.len(),
{
    if frontier.len() > 0 {
        let shorter = frontier.drop_last();
        let before = expand(flights, criteria, shorter);
        let added = extensions(flights, criteria, frontier.last(), flights.len());
        let all = expand(flights, criteria, frontier);
        lemma_expand(flights, criteria, shorter, legs);
        lemma_extensions(flights, criteria, frontier.last(), flights.len(), legs);
        if all.contains(legs) {
            let i = choose|i: int| 0 <= i < all.len() && all[i] == legs;
            if i < before.len() {
                assert(before[i] == legs);
                let j = choose|j: int| 0 <= j < shorter.len() && shorter[j] == legs.drop_last();
                assert(frontier[j] == legs.drop_last());
            } else {
                assert(added[i - before.len()] == legs);
                assert(frontier[frontier.len() - 1] == legs.drop_last());
            }
        }
        if legs.len() >= 1 && frontier.contains(legs.drop_last()) && continues(
            flights,
            criteria,
            legs.drop_last(),
            legs.last(),
        ) {
            let j = choose|j: int| 0 <= j < frontier.len() && frontier[j] == legs.drop_last();
            if j < shorter.len() {
                assert(shorter[j] == legs.drop_last());
                let i = choose|i: int| 0 <= i < before.len() && before[i] == legs;
                assert(all[i] == legs);
            } else {
                let i = choose|i: int| 0 <= i < added.len() && added[i] == legs;
                assert(all[before.len() + i] == legs);
            }
        }
    }
}

/// A journey of two or more legs is a journey without its last leg, which
/// that leg can follow.
pub proof fn lemma_journey_step(flights: Seq<Flight>, criteria: Criteria, legs: Seq<usize>)
    requires
        legs.len() >= 2,
    ensures
        is_journey(flights, criteria, legs) <==> (is_journey(flights, criteria, legs.drop_last())
            && continues(flights, criteria, legs.drop_last(), legs.last())),
{
    let shorter = legs.drop_last();
    let n = legs.len() as int;
    assert(legs.take(n - 1) =~= shorter);
    assert(shorter[0] == legs[0]);
    if is_journey(flights, criteria, legs) {
        assert(continues(flights, criteria, legs.take(n - 1), legs[n - 1]));
        assert forall|k: int| 1 <= k < shorter.len() implies continues(
            flights,
            criteria,
            shorter.take(k),
            #[trigger] shorter[k],
        ) by {
            assert(shorter.take(k) =~= legs.take(k));
            assert(continues(flights, criteria, legs.take(k), legs[k]));
        }
    }
    if is_journey(flights, criteria, shorter) && continues(flights, criteria, shorter, legs.last()) {
        assert forall|k: int| 1 <= k < legs.len() implies continues(
            flights,
            criteria,
            legs.take(k),
            #[trigger] legs[k],
        ) by {
            if k < n - 1 {
                assert(shorter.take(k) =~= legs.take(k));
                assert(continues(flights, criteria, shorter.take(k), shorter[k]));
            }
        }
    }
}

/// The expansion reaches exactly the journeys: a sequence of flights is at
/// level `count` exactly if it is a journey of `count` legs.
pub proof fn lemma_level(flights: Seq<Flight>, criteria: Criteria, count: nat, legs: Seq<usize>)
    requires
        flights.len() <= usize::MAX,
    ensures
        level(flights, criteria, count).contains(legs) <==> (legs.len() == count && is_journey(
            flights,
            criteria,
            legs,
        )),
    decreases count,
{
    if count == 1 {
        lemma_seeds(flights, criteria, flights.len(), legs);
    } else if count > 1 {
        let below = level(flights, criteria, (count - 1) as nat);
        lemma_expand(flights, criteria, below, legs);
        lemma_level(flights, criteria, (count - 1) as nat, legs.drop_last());
        if legs.len() >= 2 {
            lemma_journey_step(flights, criteria, legs);
        }
    }
}

/// `arriving` keeps exactly the journeys that end at a destination.
pub proof fn lemma_arriving(
    flights: Seq<Flight>,
    criteria: Criteria,
    journeys: Seq<Seq<usize>>,
    legs: Seq<usize>,
)
    ensures
        arriving(flights, criteria, journeys).contains(legs) <==> (journeys.contains(legs)
            && arrives(flights, criteria, legs)),
    decreases journeys.len(),
{
    if journeys.len() > 0 {
        let shorter = journeys.drop_last();
        let before = arriving(flights, criteria, shorter);
        let all = arriving(flights, criteria, journeys);
        lemma_arriving(flights, criteria, shorter, legs);
        if all.contains(legs) {
            let i = choose|i: int| 0 <= i < all.len() && all[i] == legs;
            if i < before.len() {
                assert(before[i] == legs);
                let j = choose|j: int| 0 <= j < shorter.len() && shorter[j] == legs;
                assert(journeys[j] == legs);
            } else {
                assert(journeys[journeys.len() - 1] == legs);
            }
        }
        if journeys.contains(legs) && arrives(flights, criteria, legs) {
            let j = choose|j: int| 0 <= j < journeys.len() && journeys[j] == legs;
            if j < shorter.len() {
                assert(shorter[j] == legs);
                let i = choose|i: int| 0 <= i < before.len() && before[i] == legs;
                assert(all[i] == legs);
            } else {
                assert(all[before.len() as int] == legs);
            }
        }
    }
}

/// The journeys listed within `count` legs are exactly the journeys of at
/// most `count` legs that end at a destination.
pub proof fn lemma_arrivals_within(
    flights: Seq<Flight>,
    criteria: Criteria,
    count: nat,
    legs: Seq<usize>,
)
    requires
        flights.len() <= usize::MAX,
    ensures
        arrivals_within(flights, criteria, count).contains(legs) <==> (legs.len() <= count
            && is_journey(flights, criteria, legs) && arrives(flights, criteria, legs)),
    decreases count,
{
    if count > 0 {
        let before = arrivals_within(flights, criteria, (count - 1) as nat);
        let added = arriving(flights, criteria, level(flights, criteria, count));
        let all = arrivals_within(flights, criteria, count);
        lemma_arrivals_within(flights, criteria, (count - 1) as nat, legs);
        lemma_arriving(flights, criteria, level(flights, criteria, count), legs);
        lemma_level(flights, criteria, count, legs);
        if all.contains(legs) {
            let i = choose|i: int| 0 <= i < all.len() && all[i] == legs;
            if i < before.len() {
                assert(before[i] == legs);
            } else {
                assert(added[i - before.len()] == legs);
            }
        }
        if legs.len() <= count && is_journey(flights, criteria, legs) && arrives(
            flights,
            criteria,
            legs,
        ) {
            if legs.len() < count {
                let i = choose|i: int| 0 <= i < before.len() && before[i] == legs;
                assert(all[i] == legs);
            } else {
                let i = choose|i: int| 0 <= i < added.len() && added[i] == legs;
                assert(all[before.len() + i] == legs);
            }
        }
    }
}

/// The search is exact: a sequence of flights is listed exactly if it is an
/// itinerary.
pub proof fn lemma_itineraries_exact(flights: Seq<Flight>, criteria: Criteria, legs: Seq<usize>)
    requires
        flights.len() <= usize::MAX,
    ensures
        itineraries(flights, criteria).contains(legs) <==> is_itinerary(flights, criteria, legs),
{
    if criteria.max_legs > 0 {
        lemma_arrivals_within(flights, criteria, criteria.max_legs as nat, legs);
    }
}

/// No seed is listed twice.
proof fn lemma_seeds_distinct(flights: Seq<Flight>, criteria: Criteria, n: nat)
    requires
        n <= flights.len() <= usize::MAX,
    ensures
        seeds(flights, criteria, n).no_duplicates(),
    decreases n,
{
    if n > 0 {
        let before = seeds(flights, criteria, (n - 1) as nat);
        lemma_seeds_distinct(flights, criteria, (n - 1) as nat);
        assert forall|i: int| 0 <= i < before.len() implies before[i] != seq![(n - 1) as usize] by {
            lemma_seeds(flights, criteria, (n - 1) as nat, before[i]);
            assert(before.contains(before[i]));
            assert(seq![(n - 1) as usize][0] == (n - 1) as usize);
        }
    }
}

/// No extension of a journey is listed twice.
proof fn lemma_extensions_distinct(
    flights: Seq<Flight>,
    criteria: Criteria,
    parent: Seq<usize>,
    n: nat,
)
    requires
        n <= flights.len() <= usize::MAX,
    ensures
        extensions(flights, criteria, parent, n).no_duplicates(),
    decreases n,
{
    if n > 0 {
        let before = extensions(flights, criteria, parent, (n - 1) as nat);
        let added = parent.push((n - 1) as usize);
        lemma_extensions_distinct(flights, criteria, parent, (n - 1) as nat);
        assert forall|i: int| 0 <= i < before.len() implies before[i] != added by {
            lemma_extensions(flights, criteria, parent, (n - 1) as nat, before[i]);
            assert(before.contains(before[i]));
            assert(added.last() == (n - 1) as usize);
        }
    }
}

/// An expansion step lists no journey twice if the frontier does not.
proof fn lemma_expand_distinct(flights: Seq<Flight>, criteria: Criteria, frontier: Seq<Seq<usize>>)
    requires
        flights.len() <= usize::MAX,
        frontier.no_duplicates(),
    ensures
        expand(flights, criteria, frontier).no_duplicates(),
    decreases frontier.len(),
{
    if frontier.len() > 0 {
        let shorter = frontier.drop_last();
        let before = expand(flights, criteria, shorter);
        let added = extensions(flights, criteria, frontier.last(), flights.len());
        lemma_expand_distinct(flights, criteria, shorter);
        lemma_extensions_distinct(flights, criteria, frontier.last(), flights.len());
        assert forall|i: int, j: int| 0 <= i < before.len() && 0 <= j < added.len() implies before[i]
            != added[j] by {
            lemma_expand(flights, criteria, shorter, before[i]);
            lemma_extensions(flights, criteria, frontier.last(), flights.len(), added[j]);
            assert(before.contains(before[i]));
            assert(added.contains(added[j]));
            if before[i] == added[j] {
                let k = choose|k: int|
                    0 <= k < shorter.len() && shorter[k] == before[i].drop_last();
                assert(frontier[k] == frontier[frontier.len() - 1]);
            }
        }
        vstd::seq_lib::lemma_no_dup_in_concat(before, added);
    }
}

/// No level lists a journey twice.
proof fn lemma_level_distinct(flights: Seq<Flight>, criteria: Criteria, count: nat)
    requires
        flights.len() <= usize::MAX,
    ensures
        level(flights, criteria, count).no_duplicates(),
    decreases count,
{
    if count == 1 {
        lemma_seeds_distinct(flights, criteria, flights.len());
    } else if count > 1 {
        lemma_level_distinct(flights, criteria, (count - 1) as nat);
        lemma_expand_distinct(flights, criteria, level(flights, criteria, (count - 1) as nat));
    }
}

/// `arriving` lists no journey twice if its argument does not.
proof fn lemma_arriving_distinct(
    flights: Seq<Flight>,
    criteria: Criteria,
    journeys: Seq<Seq<usize>>,
)
    requires
        journeys.no_duplicates(),
    ensures
        arriving(flights, criteria, journeys).no_duplicates(),
    decreases journeys.len(),
{
    if journeys.len() > 0 {
        let shorter = journeys.drop_last();
        let before = arriving(flights, criteria, shorter);
        lemma_arriving_distinct(flights, criteria, shorter);
        assert forall|i: int| 0 <= i < before.len() implies before[i] != journeys.last() by {
            lemma_arriving(flights, criteria, shorter, before[i]);
            assert(before.contains(before[i]));
            if before[i] == journeys.last() {
                let j = choose|j: int| 0 <= j < shorter.len() && shorter[j] == before[i];
                assert(journeys[j] == journeys[journeys.len() - 1]);
            }
        }
    }
}

/// No journey is listed twice within any number of legs.
proof fn lemma_arrivals_within_distinct(flights: Seq<Flight>, criteria: Criteria, count: nat)
    requires
        flights.len() <= usize::MAX,
    ensures
        arrivals_within(flights, criteria, count).no_duplicates(),
    decreases count,
{
    if count > 0 {
        let before = arrivals_within(flights, criteria, (count - 1) as nat);
        let added = arriving(flights, criteria, level(flights, criteria, count));
        lemma_arrivals_within_distinct(flights, criteria, (count - 1) as nat);
        lemma_level_distinct(flights, criteria, count);
        lemma_arriving_distinct(flights, criteria, level(flights, criteria, count));
        assert forall|i: int, j: int| 0 <= i < before.len() && 0 <= j < added.len() implies before[i]
            != added[j] by {
            lemma_arrivals_within(flights, criteria, (count - 1) as nat, before[i]);
            lemma_arriving(flights, criteria, level(flights, criteria, count), added[j]);
            lemma_level(flights, criteria, count, added[j]);
            assert(before.contains(before[i]));
            assert(added.contains(added[j]));
        }
        vstd::seq_lib::lemma_no_dup_in_concat(before, added);
    }
}

/// The search lists every itinerary once.
pub proof fn lemma_itineraries_distinct(flights: Seq<Flight>, criteria: Criteria)
    requires
        flights.len() <= usize::MAX,
    ensures
        itineraries(flights, criteria).no_duplicates(),
{
    if criteria.max_legs > 0 {
        lemma_arrivals_within_distinct(flights, criteria, criteria.max_legs as nat);
    }
}

/// Once a level is empty, every later level is empty, and nothing more is
/// listed.
pub proof fn lemma_exhausted(flights: Seq<Flight>, criteria: Criteria, count: nat, later: nat)
    requires
        1 <= count <= later,
        level(flights, criteria, count).len() == 0,
    ensures
        level(flights, criteria, later).len() == 0,
        arrivals_within(flights, criteria, later) == arrivals_within(flights, criteria, count),
    decreases later,
{
    if later > count {
        lemma_exhausted(flights, criteria, count, (later - 1) as nat);
        assert(level(flights, criteria, later) =~= Seq::<Seq<usize>>::empty());
        assert(arrivals_within(flights, criteria, later) =~= arrivals_within(
            flights,
            criteria,
            (later - 1) as nat,
        ));
    }
}

/// Every leg of a journey names a flight of the snapshot.
pub proof fn lemma_journey_well_formed(flights: Seq<Flight>, criteria: Criteria, legs: Seq<usize>)
    requires
        is_journey(flights, criteria, legs),
    ensures
        well_formed(flights, legs),
{
    assert forall|k: int| 0 <= k < legs.len() implies #[trigger] legs[k] < flights.len() by {
        if k > 0 {
            assert(continues(flights, criteria, legs.take(k), legs[k]));
        }
    }
}

/// A list of journeys has the records of its parts, in order.
pub proof fn lemma_records_add(flights: Seq<Flight>, first: Seq<Seq<usize>>, second: Seq<Seq<usize>>)
    ensures
        records(flights, first + second) == records(flights, first) + records(flights, second),
{
    assert(records(flights, first + second) =~= records(flights, first) + records(flights, second));
}

/// A record is among the records of a list exactly if it is the record of a
/// journey of the list.
pub proof fn lemma_records_contains(
    flights: Seq<Flight>,
    journeys: Seq<Seq<usize>>,
    record: Itinerary,
)
    ensures
        records(flights, journeys).contains(record) <==> exists|legs: Seq<usize>|
            #[trigger] journeys.contains(legs) && record == assembled(flights, legs),
{
    let listed = records(flights, journeys);
    if listed.contains(record) {
        let i = choose|i: int| 0 <= i < listed.len() && listed[i] == record;
        assert(journeys.contains(journeys[i]));
    }
    if exists|legs: Seq<usize>|
        #[trigger] journeys.contains(legs) && record == assembled(flights, legs) {
        let legs = choose|legs: Seq<usize>|
            #[trigger] journeys.contains(legs) && record == assembled(flights, legs);
        let i = choose|i: int| 0 <= i < journeys.len() && journeys[i] == legs;
        assert(listed[i] == record);
    }
}

/// A journey visits no airport twice.
pub proof fn lemma_journey_is_simple(flights: Seq<Flight>, criteria: Criteria, legs: Seq<usize>)
    requires
        is_journey(flights, criteria, legs),
    ensures
        airports_of(flights, legs).no_duplicates(),
    decreases legs.len(),
{
    let visited = airports_of(flights, legs);
    if legs.len() == 1 {
        assert(visited =~= seq![
            flights[legs[0] as int].departure_airport,
            flights[legs[0] as int].arrival_airport,
        ]);
    } else {
        let shorter = legs.drop_last();
        lemma_journey_step(flights, criteria, legs);
        lemma_journey_is_simple(flights, criteria, shorter);
        lemma_airports_of_push(flights, shorter, legs.last());
        assert(shorter.push(legs.last()) =~= legs);
        let before = airports_of(flights, shorter);
        assert forall|i: int, j: int| 0 <= i < j < visited.len() implies visited[i] != visited[j] by {
            if j == visited.len() - 1 {
                assert(before[i] == visited[i]);
                assert(before.contains(before[i]));
            } else {
                assert(before[i] == visited[i] && before[j] == visited[j]);
            }
        }
    }
}

/// The time on the ground before leg `k`: from the arrival of the leg
/// before it to its own departure.
pub open spec fn layover(flights: Seq<Flight>, legs: Seq<usize>, k: int) -> int {
    flights[legs[k] as int].scheduled_departure - flights[legs[k - 1] as int].scheduled_arrival
}

/// Leg `k` leaves from the airport at which the leg before it arrived.
pub open spec fn joined(flights: Seq<Flight>, legs: Seq<usize>, k: int) -> bool {
    flights[legs[k] as int].departure_airport == flights[legs[k - 1] as int].arrival_airport
}

/// In a journey every connection lasts no less than the shortest and no more
/// than the longest connection time, each leg leaves where the one before
/// arrived, and every leg is a scheduled flight.
pub proof fn lemma_journey_connects(flights: Seq<Flight>, criteria: Criteria, legs: Seq<usize>)
    requires
        is_journey(flights, criteria, legs),
    ensures
        forall|k: int|
            1 <= k < legs.len() ==> criteria.connection_min <= #[trigger] layover(flights, legs, k)
                <= criteria.connection_max,
        forall|k: int| 1 <= k < legs.len() ==> #[trigger] joined(flights, legs, k),
        forall|k: int|
            0 <= k < legs.len() ==> eligible(
                flights[(#[trigger] legs[k]) as int],
                criteria.booking_class,
            ),
{
    assert forall|k: int| 1 <= k < legs.len() implies criteria.connection_min <= #[trigger] layover(
        flights,
        legs,
        k,
    ) <= criteria.connection_max && joined(flights, legs, k) by {
        assert(continues(flights, criteria, legs.take(k), legs[k]));
        assert(legs.take(k).last() == legs[k - 1]);
    }
    assert forall|k: int| 0 <= k < legs.len() implies eligible(
        flights[(#[trigger] legs[k]) as int],
        criteria.booking_class,
    ) by {
        if k > 0 {
            assert(continues(flights, criteria, legs.take(k), legs[k]));
        }
    }
}

/// What holds of every itinerary that is returned: every connection is
/// within the connection window, no airport is visited twice, the path
/// leads from a source to a destination and names one airport more than
/// there are flights, the first leg leaves within the departure window, the
/// number of connections is one less than the number of flights, and there
/// are no more flights than allowed.
pub proof fn lemma_itinerary_sound(flights: Seq<Flight>, criteria: Criteria, legs: Seq<usize>)
    requires
        is_itinerary(flights, criteria, legs),
    ensures
        forall|k: int|
            1 <= k < legs.len() ==> criteria.connection_min <= #[trigger] layover(flights, legs, k)
                <= criteria.connection_max,
        assembled(flights, legs).path.no_duplicates(),
        assembled(flights, legs).path.len() == assembled(flights, legs).flight_ids.len() + 1,
        criteria.origins.contains(assembled(flights, legs).path[0]),
        criteria.destinations.contains(assembled(flights, legs).path.last()),
        in_departure_window(criteria.window_start, assembled(flights, legs).departure_time),
        assembled(flights, legs).connections == assembled(flights, legs).flight_ids.len() - 1,
        assembled(flights, legs).flight_ids.len() <= criteria.max_legs,
{
    lemma_journey_is_simple(flights, criteria, legs);
    lemma_journey_connects(flights, criteria, legs);
}

/// `record` reports flights of the snapshot of which each but the first
/// leaves within the connection window after the one before has arrived; it
/// names no airport twice; it counts one connection less than it has
/// flights; and it has no more flights than allowed.
pub open spec fn is_sound(flights: Seq<Flight>, criteria: Criteria, record: Itinerary) -> bool {
    &&& record.path.no_duplicates()
    &&& record.path.len() == record.flight_ids.len() + 1
    &&& record.connections == record.flight_ids.len() - 1
    &&& 1 <= record.flight_ids.len() <= criteria.max_legs
    &&& exists|legs: Seq<usize>|
        {
            &&& #[trigger] assembled(flights, legs) == record
            &&& well_formed(flights, legs)
            &&& forall|k: int|
                1 <= k < legs.len() ==> criteria.connection_min <= #[trigger] layover(
                    flights,
                    legs,
                    k,
                ) <= criteria.connection_max
        }
}

/// The record of an itinerary is sound.
pub proof fn lemma_record_sound(flights: Seq<Flight>, criteria: Criteria, legs: Seq<usize>)
    requires
        is_itinerary(flights, criteria, legs),
    ensures
        is_sound(flights, criteria, assembled(flights, legs)),
{
    lemma_itinerary_sound(flights, criteria, legs);
    lemma_journey_well_formed(flights, criteria, legs);
}

/// Every record that a search lists is sound.
pub proof fn lemma_listed_records_sound(flights: Seq<Flight>, criteria: Criteria)
    requires
        flights.len() <= usize::MAX,
    ensures
        forall|i: int|
            0 <= i < itineraries(flights, criteria).len() ==> is_sound(
                flights,
                criteria,
                #[trigger] records(flights, itineraries(flights, criteria))[i],
            ),
{
    let listed = itineraries(flights, criteria);
    assert forall|i: int| 0 <= i < listed.len() implies is_sound(
        flights,
        criteria,
        #[trigger] records(flights, listed)[i],
    ) by {
        assert(listed.contains(listed[i]));
        lemma_itineraries_exact(flights, criteria, listed[i]);
        lemma_record_sound(flights, criteria, listed[i]);
    }
}

/// A bound on the legs that is not positive is refused, whatever the
/// snapshot holds.
pub proof fn lemma_zero_legs_refused(flights: Seq<Flight>, criteria: Criteria)
    requires
        criteria.max_legs <= 0,
    ensures
        outcome(flights, criteria) == Err::<Seq<Itinerary>, SearchError>(
            SearchError::InvalidMaxConnections,
        ),
{
}

/// At the least bound that is accepted, one leg, the itineraries are exactly
/// the direct flights: the flights that can open a journey and land at a
/// destination, in snapshot order. None is listed where there is no such
/// flight.
pub proof fn lemma_single_leg_bound(flights: Seq<Flight>, criteria: Criteria, legs: Seq<usize>)
    requires
        flights.len() <= usize::MAX,
        criteria.max_legs == 1,
    ensures
        itineraries(flights, criteria) == arriving(
            flights,
            criteria,
            seeds(flights, criteria, flights.len()),
        ),
        itineraries(flights, criteria).contains(legs) <==> (legs.len() == 1 && starts(
            flights,
            criteria,
            legs[0],
        ) && criteria.destinations.contains(flights[legs[0] as int].arrival_airport)),
{
    assert(arrivals_within(flights, criteria, 0) =~= Seq::<Seq<usize>>::empty());
    assert(itineraries(flights, criteria) =~= arriving(
        flights,
        criteria,
        level(flights, criteria, 1),
    ));
    lemma_itineraries_exact(flights, criteria, legs);
}

} // verus!
