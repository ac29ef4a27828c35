use flight_search::calendar::CalendarDate;
use flight_search::config::{Config, ConfigError};
use flight_search::error::{SearchError, SearchFailure};
use flight_search::flights::{ClassAvailability, FlightInstance, FlightStatus};
use flight_search::handlers::{
    convert_location_to_airport_codes, list_routes, ListRoutesParameters,
};
use flight_search::neighbours::{load_neighbours, RouteEdge};
use flight_search::types::{BookingClass, LocationType};

fn text(s: &str) -> String {
    s.to_string()
}

fn flight(id: i32, from: &str, to: &str, departs: i64, arrives: i64) -> FlightInstance {
    FlightInstance {
        flight_id: id,
        departure_airport: text(from),
        arrival_airport: text(to),
        scheduled_departure: departs,
        scheduled_arrival: arrives,
        status: FlightStatus::Scheduled,
        availability: ClassAvailability { economy: true, comfort: false, business: false },
    }
}

fn asked(max_connections: u8, hours_min: u8, hours_max: u8) -> ListRoutesParameters {
    ListRoutesParameters {
        source_type: LocationType::CITY,
        source: text("Moscow"),
        destination_type: LocationType::AIRPORT,
        destination: text("LED"),
        max_connections,
        connection_time_min: hours_min,
        connection_time_max: hours_max,
        departure_date: CalendarDate { year: 1970, month: 1, day: 2 },
        booking_class: BookingClass::Business,
    }
}

#[test]
fn booking_class_has_its_stored_name() {
    assert_eq!(String::from(BookingClass::Economy), "Economy");
    assert_eq!(String::from(BookingClass::Comfort), "Comfort");
    assert_eq!(String::from(BookingClass::Business), "Business");
    assert_eq!(BookingClass::Economy.name(), "Economy");
    assert_eq!(BookingClass::Comfort.name(), "Comfort");
    assert_eq!(BookingClass::Business.name(), "Business");
}

#[test]
fn location_type_has_its_exchanged_name() {
    assert_eq!(LocationType::CITY.name(), "City");
    assert_eq!(LocationType::AIRPORT.name(), "Airport");
}

#[test]
fn names_are_read_back_exactly() {
    assert_eq!(LocationType::from_name(&text("City")), Some(LocationType::CITY));
    assert_eq!(LocationType::from_name(&text("Airport")), Some(LocationType::AIRPORT));
    assert_eq!(LocationType::from_name(&text("CITY")), None);
    assert_eq!(LocationType::from_name(&text("")), None);
    for class in [BookingClass::Economy, BookingClass::Comfort, BookingClass::Business] {
        assert_eq!(BookingClass::from_name(&class.name()), Some(class));
    }
    assert_eq!(BookingClass::from_name(&text("economy")), None);
    assert_eq!(BookingClass::from_name(&text("First")), None);
    for status in [
        FlightStatus::Scheduled,
        FlightStatus::OnTime,
        FlightStatus::Delayed,
        FlightStatus::Departed,
        FlightStatus::Arrived,
        FlightStatus::Cancelled,
    ] {
        assert_eq!(FlightStatus::from_name(&status.name()), Some(status));
    }
    assert_eq!(FlightStatus::from_name(&text("On Time")), Some(FlightStatus::OnTime));
    assert_eq!(FlightStatus::from_name(&text("OnTime")), None);
    assert_eq!(FlightStatus::from_name(&text("scheduled")), None);
}

#[test]
fn airport_stands_for_itself() {
    let codes = convert_location_to_airport_codes(
        LocationType::AIRPORT,
        text("SVO"),
        vec![text("DME"), text("VKO")],
    );
    assert_eq!(codes, vec![text("SVO")]);
}

#[test]
fn city_stands_for_its_airports() {
    let codes = convert_location_to_airport_codes(
        LocationType::CITY,
        text("Moscow"),
        vec![text("SVO"), text("DME"), text("VKO")],
    );
    assert_eq!(codes, vec![text("SVO"), text("DME"), text("VKO")]);
    let none = convert_location_to_airport_codes(LocationType::CITY, text("Atlantis"), Vec::new());
    assert!(none.is_empty());
}

#[test]
fn configuration_needs_both_settings() {
    assert_eq!(
        Config::init(Some(text("postgres://db")), Some(text("0.0.0.0:8080"))),
        Ok(Config { database_url: text("postgres://db"), server_addr: text("0.0.0.0:8080") })
    );
    assert_eq!(Config::init(None, Some(text("0.0.0.0:8080"))), Err(ConfigError::MissingDatabaseUrl));
    assert_eq!(Config::init(Some(text("postgres://db")), None), Err(ConfigError::MissingServerAddr));
    assert_eq!(Config::init(None, None), Err(ConfigError::MissingDatabaseUrl));
    assert_eq!(ConfigError::MissingDatabaseUrl.message(), "DATABASE_URL must be set");
    assert_eq!(ConfigError::MissingServerAddr.message(), "SERVER_ADDR must be set");
}

fn read(flights: &[FlightInstance]) -> Result<Vec<FlightInstance>, String> {
    Ok(flights.to_vec())
}

#[test]
fn routes_are_listed_for_the_resolved_airports() {
    let day = 86_400;
    let flights = vec![
        flight(1, "SVO", "KZN", day + 3_600, day + 7_200),
        flight(2, "KZN", "LED", day + 14_400, day + 20_000),
        flight(3, "DME", "LED", day + 50_000, day + 56_000),
    ];
    let sources = vec![text("SVO"), text("DME")];
    let found =
        list_routes(&asked(2, 1, 24), sources, vec![text("LED")], read(&flights), false).unwrap();
    assert_eq!(found.len(), 2);
    assert_eq!(found[0].flight_ids, vec![3]);
    assert_eq!(found[1].flight_ids, vec![1, 2]);
    assert_eq!(found[1].path, vec![text("SVO"), text("KZN"), text("LED")]);
    // The connection lasts two hours.
    let tight =
        list_routes(&asked(2, 1, 1), vec![text("SVO")], vec![text("LED")], read(&flights), false);
    assert_eq!(tight, Ok(Vec::new()));
    let exact =
        list_routes(&asked(2, 2, 2), vec![text("SVO")], vec![text("LED")], read(&flights), false);
    assert_eq!(exact.unwrap().len(), 1);
}

#[test]
fn fare_class_of_the_request_gates_flights_only_on_demand() {
    let day = 86_400;
    let flights = vec![flight(3, "DME", "LED", day + 50_000, day + 56_000)];
    let sources = vec![text("DME")];
    let open = list_routes(&asked(1, 1, 24), sources.clone(), vec![text("LED")], read(&flights), false);
    assert_eq!(open.unwrap().len(), 1);
    let gated = list_routes(&asked(1, 1, 24), sources, vec![text("LED")], read(&flights), true);
    assert_eq!(gated, Ok(Vec::new()));
}

#[test]
fn request_with_a_zero_bound_is_refused() {
    let sources = vec![text("DME")];
    let destinations = vec![text("LED")];
    assert_eq!(
        list_routes(&asked(0, 1, 24), sources.clone(), destinations.clone(), read(&[]), false),
        Err(SearchFailure::Refused(SearchError::InvalidMaxConnections))
    );
    assert_eq!(
        list_routes(&asked(1, 0, 24), sources.clone(), destinations.clone(), read(&[]), false),
        Err(SearchFailure::Refused(SearchError::InvalidConnectionTime))
    );
    let mut parameters = asked(1, 1, 24);
    parameters.departure_date = CalendarDate { year: 2001, month: 2, day: 29 };
    assert_eq!(
        list_routes(&parameters, sources, destinations, read(&[]), false),
        Err(SearchFailure::Refused(SearchError::InvalidDate))
    );
}

#[test]
fn flights_that_could_not_be_read_fail_the_request() {
    let failed: Result<Vec<FlightInstance>, String> = Err(text("connection lost"));
    assert_eq!(
        list_routes(&asked(2, 1, 24), vec![text("DME")], vec![text("LED")], failed, false),
        Err(SearchFailure::DataAccess(text("connection lost")))
    );
    // Also where the request would be refused.
    let failed: Result<Vec<FlightInstance>, String> = Err(text("connection lost"));
    assert_eq!(
        list_routes(&asked(0, 0, 0), vec![text("DME")], vec![text("LED")], failed, false),
        Err(SearchFailure::DataAccess(text("connection lost")))
    );
}

#[test]
fn routes_that_could_not_be_read_make_no_view() {
    let failed: Result<Vec<RouteEdge>, String> = Err(text("timeout"));
    assert_eq!(load_neighbours(failed).err(), Some(text("timeout")));
    let routes = vec![RouteEdge { departure_airport: text("A"), arrival_airport: text("B") }];
    let loaded = load_neighbours(Ok::<Vec<RouteEdge>, String>(routes)).unwrap();
    assert_eq!(loaded.neighbours(&text("A")), Some(&vec![text("B")]));
    assert_eq!(loaded.neighbours(&text("B")), None);
}
