use flight_search::check_in::{
    begin_check_in, boarding_number, check_in_passanger, CheckIn, CheckInAction, CheckInError,
    CheckInEvent, NotRegisteredError,
};

fn text(s: &str) -> String {
    s.to_string()
}

#[test]
fn check_in_walks_through_every_step() {
    let state = begin_check_in(text("0005432000987"), 42);
    assert_eq!(state, CheckIn::Created { ticket_no: text("0005432000987"), flight_id: 42 });
    let (state, action) = check_in_passanger(state, CheckInEvent::Started);
    assert_eq!(action, CheckInAction::CountBoarded { flight_id: 42 });
    let (state, action) = check_in_passanger(state, CheckInEvent::BoardedCounted(Some(17)));
    assert_eq!(
        action,
        CheckInAction::FindFare { ticket_no: text("0005432000987"), flight_id: 42 }
    );
    assert_eq!(
        state,
        CheckIn::FindingFare { ticket_no: text("0005432000987"), flight_id: 42, boarding_no: 18 }
    );
    let (state, action) =
        check_in_passanger(state, CheckInEvent::FareFound(Some(text("Business"))));
    assert_eq!(action, CheckInAction::FindAircraft { flight_id: 42 });
    let (state, action) = check_in_passanger(state, CheckInEvent::AircraftFound(text("773")));
    assert_eq!(
        action,
        CheckInAction::FindSeat {
            flight_id: 42,
            aircraft_code: text("773"),
            fare_conditions: text("Business"),
        }
    );
    let (state, action) = check_in_passanger(state, CheckInEvent::SeatFound(text("2A")));
    assert_eq!(
        action,
        CheckInAction::InsertPass {
            ticket_no: text("0005432000987"),
            flight_id: 42,
            boarding_no: 18,
            seat_no: text("2A"),
        }
    );
    assert_eq!(state, CheckIn::Boarding { seat_no: text("2A") });
    let (state, action) = check_in_passanger(state, CheckInEvent::PassInserted);
    assert_eq!(action, CheckInAction::Finish(Ok(text("2A"))));
    assert_eq!(state, CheckIn::Finished);
}

#[test]
fn passenger_without_ticket_for_the_flight_is_turned_away() {
    let state = begin_check_in(text("T1"), 7);
    let (state, _) = check_in_passanger(state, CheckInEvent::Started);
    let (state, _) = check_in_passanger(state, CheckInEvent::BoardedCounted(None));
    assert_eq!(state, CheckIn::FindingFare { ticket_no: text("T1"), flight_id: 7, boarding_no: 1 });
    let (state, action) = check_in_passanger(state, CheckInEvent::FareFound(None));
    assert_eq!(
        action,
        CheckInAction::Finish(Err(CheckInError::NotRegistered(NotRegisteredError)))
    );
    assert_eq!(state, CheckIn::Finished);
    assert_eq!(NotRegisteredError.message(), "This passenger is not registered for this flight");
}

#[test]
fn boarding_number_is_one_more_than_have_boarded() {
    assert_eq!(boarding_number(None), Some(1));
    assert_eq!(boarding_number(Some(0)), Some(1));
    assert_eq!(boarding_number(Some(99)), Some(100));
    assert_eq!(boarding_number(Some(i32::MAX as i64 - 1)), Some(i32::MAX));
    assert_eq!(boarding_number(Some(-1)), Some(0));
}

#[test]
fn boarding_number_out_of_range_ends_the_check_in() {
    assert_eq!(boarding_number(Some(i32::MAX as i64)), None);
    assert_eq!(boarding_number(Some(i64::MAX)), None);
    assert_eq!(boarding_number(Some(i64::MIN)), None);
    assert_eq!(boarding_number(Some(i32::MIN as i64 - 1)), Some(i32::MIN));
    assert_eq!(boarding_number(Some(i32::MIN as i64 - 2)), None);
    let state = CheckIn::CountingBoarded { ticket_no: text("T1"), flight_id: 7 };
    let (state, action) =
        check_in_passanger(state, CheckInEvent::BoardedCounted(Some(i32::MAX as i64)));
    assert_eq!(action, CheckInAction::Finish(Err(CheckInError::BoardingNumberOutOfRange)));
    assert_eq!(state, CheckIn::Finished);
}

#[test]
fn answer_out_of_turn_ends_the_check_in() {
    let (state, action) =
        check_in_passanger(begin_check_in(text("T1"), 7), CheckInEvent::PassInserted);
    assert_eq!(action, CheckInAction::Finish(Err(CheckInError::OutOfTurn)));
    assert_eq!(state, CheckIn::Finished);
    let (_, action) = check_in_passanger(CheckIn::Finished, CheckInEvent::Started);
    assert_eq!(action, CheckInAction::Finish(Err(CheckInError::OutOfTurn)));
    let (_, action) = check_in_passanger(
        CheckIn::Boarding { seat_no: text("2A") },
        CheckInEvent::SeatFound(text("3C")),
    );
    assert_eq!(action, CheckInAction::Finish(Err(CheckInError::OutOfTurn)));
}
