//! Checking a passenger in: what to look up next, and what to write, after
//! each answer from the records. The one who runs a check-in performs each
//! action and reports what came of it.

use vstd::prelude::*;

verus! {

/// The passenger holds no ticket for the flight.
#[derive(Clone, Copy, Debug, PartialEq, Eq, Structural)]
pub struct NotRegisteredError;

impl NotRegisteredError {
    /// The text of the refusal.
    pub open spec fn spec_message(self) -> Seq<char> {
        "This passenger is not registered for this flight"@
    }

    /// The text shown to the passenger.
    pub fn message(&self) -> (text: String)
        ensures
            text@ == self.spec_message(),
    {
        "This passenger is not registered for this flight".to_owned()
    }
}

/// Why a check-in ends without a seat.
#[derive(Clone, Copy, Debug, PartialEq, Eq, Structural)]
pub enum CheckInError {
    NotRegistered(NotRegisteredError),
    /// More passengers have boarded than a boarding number can count.
    BoardingNumberOutOfRange,
    /// An answer was reported that the check-in had not asked for.
    OutOfTurn,
}

/// How far a check-in has come.
#[derive(Debug, PartialEq, Eq)]
pub enum CheckIn {
    Created { ticket_no: String, flight_id: i32 },
    CountingBoarded { ticket_no: String, flight_id: i32 },
    FindingFare { ticket_no: String, flight_id: i32, boarding_no: i32 },
    FindingAircraft { ticket_no: String, flight_id: i32, boarding_no: i32, fare_conditions: String },
    FindingSeat { ticket_no: String, flight_id: i32, boarding_no: i32 },
    Boarding { seat_no: String },
    Finished,
}

/// What the records answered.
#[derive(Debug, PartialEq, Eq)]
pub enum CheckInEvent {
    Started,
    /// How many passengers have boarded the flight, where that is known.
    BoardedCounted(Option<i64>),
    /// The fare class of the ticket on the flight, if it is for the flight.
    FareFound(Option<String>),
    AircraftFound(String),
    /// A free seat of that class.
    SeatFound(String),
    PassInserted,
}

/// What to do next.
#[derive(Debug, PartialEq, Eq)]
pub enum CheckInAction {
    CountBoarded { flight_id: i32 },
    FindFare { ticket_no: String, flight_id: i32 },
    FindAircraft { flight_id: i32 },
    FindSeat { flight_id: i32, aircraft_code: String, fare_conditions: String },
    InsertPass { ticket_no: String, flight_id: i32, boarding_no: i32, seat_no: String },
    Finish(Result<String, CheckInError>),
}

/// The boarding number of the next passenger: one more than have boarded.
pub open spec fn next_boarding_number(boarded: Option<i64>) -> int {
    match boarded {
        Some(count) => count + 1,
        None => 1,
    }
}

/// The check-in ends here with `error`.
pub open spec fn fails_with(next: CheckIn, action: CheckInAction, error: CheckInError) -> bool {
    &&& next is Finished
    &&& action matches CheckInAction::Finish(Err(reported))
    &&& reported == error
}

/// The step that a check-in takes from `state` when `event` is reported.
pub open spec fn steps(
    state: CheckIn,
    event: CheckInEvent,
    next: CheckIn,
    action: CheckInAction,
) -> bool {
    match (state, event) {
        (CheckIn::Created { ticket_no, flight_id }, CheckInEvent::Started) => {
            &&& next matches CheckIn::CountingBoarded { ticket_no: kept, flight_id: flight }
            &&& kept@ == ticket_no@ && flight == flight_id
            &&& action matches CheckInAction::CountBoarded { flight_id: asked }
            &&& asked == flight_id
        },
        (CheckIn::CountingBoarded { ticket_no, flight_id }, CheckInEvent::BoardedCounted(boarded)) => {
            if next_boarding_number(boarded) <= i32::MAX && next_boarding_number(boarded)
                >= i32::MIN {
                &&& next matches CheckIn::FindingFare {
                    ticket_no: kept,
                    flight_id: flight,
                    boarding_no,
                }
                &&& kept@ == ticket_no@ && flight == flight_id
                &&& boarding_no == next_boarding_number(boarded)
                &&& action matches CheckInAction::FindFare { ticket_no: asked, flight_id: of }
                &&& asked@ == ticket_no@ && of == flight_id
            } else {
                fails_with(next, action, CheckInError::BoardingNumberOutOfRange)
            }
        },
        (
            CheckIn::FindingFare { ticket_no, flight_id, boarding_no },
            CheckInEvent::FareFound(Some(fare)),
        ) => {
            &&& next matches CheckIn::FindingAircraft {
                ticket_no: kept,
                flight_id: flight,
                boarding_no: number,
                fare_conditions,
            }
            &&& kept@ == ticket_no@ && flight == flight_id && number == boarding_no
            &&& fare_conditions@ == fare@
            &&& action matches CheckInAction::FindAircraft { flight_id: asked }
            &&& asked == flight_id
        },
        (CheckIn::FindingFare { .. }, CheckInEvent::FareFound(None)) => fails_with(
            next,
            action,
            CheckInError::NotRegistered(NotRegisteredError),
        ),
        (
            CheckIn::FindingAircraft { ticket_no, flight_id, boarding_no, fare_conditions },
            CheckInEvent::AircraftFound(code),
        ) => {
            &&& next matches CheckIn::FindingSeat { ticket_no: kept, flight_id: flight, boarding_no: number }
            &&& kept@ == ticket_no@ && flight == flight_id && number == boarding_no
            &&& action matches CheckInAction::FindSeat {
                flight_id: asked,
                aircraft_code,
                fare_conditions: class,
            }
            &&& asked == flight_id && aircraft_code@ == code@ && class@ == fare_conditions@
        },
        (
            CheckIn::FindingSeat { ticket_no, flight_id, boarding_no },
            CheckInEvent::SeatFound(seat),
        ) => {
            &&& next matches CheckIn::Boarding { seat_no: kept }
            &&& kept@ == seat@
            &&& action matches CheckInAction::InsertPass {
                ticket_no: ticket,
                flight_id: flight,
                boarding_no: number,
                seat_no,
            }
            &&& ticket@ == ticket_no@ && flight == flight_id && number == boarding_no
            &&& seat_no@ == seat@
        },
        (CheckIn::Boarding { seat_no }, CheckInEvent::PassInserted) => {
            &&& next is Finished
            &&& action matches CheckInAction::Finish(Ok(place))
            &&& place@ == seat_no@
        },
        _ => fails_with(next, action, CheckInError::OutOfTurn),
    }
}

/// The boarding number of the next passenger, or `None` where it is more
/// than a boarding number can hold.
pub fn boarding_number(boarded: Option<i64>) -> (number: Option<i32>)
    ensures
        match number {
            Some(n) => n == next_boarding_number(boarded),
            None => !(i32::MIN <= next_boarding_number(boarded) <= i32::MAX),
        },
{
    let count: i64 = match boarded {
        Some(count) => count,
        None => 0,
    };
    if count < i32::MIN as i64 - 1 || count >= i32::MAX as i64 {
        None
    } else {
        Some((count + 1) as i32)
    }
}

/// Begins the check-in of the holder of a ticket for a flight.
pub fn begin_check_in(ticket_no: String, flight_id: i32) -> (state: CheckIn)
    ensures
        state == (CheckIn::Created { ticket_no, flight_id }),
{
    CheckIn::Created { ticket_no, flight_id }
}

/// Takes one step of a check-in: from how far it has come and what the
/// records answered to what it does next. It first counts who has boarded,
/// then asks for the fare class of the ticket on the flight, and ends there
/// if the ticket is not for the flight; then it asks for the aircraft, for a
/// free seat of the class, writes the boarding pass, and ends with the seat.
pub fn check_in_passanger(state: CheckIn, event: CheckInEvent) -> (step: (CheckIn, CheckInAction))
    ensures
        steps(state, event, step.0, step.1),
{
    match (state, event) {
        (CheckIn::Created { ticket_no, flight_id }, CheckInEvent::Started) => (
            CheckIn::CountingBoarded { ticket_no, flight_id },
            CheckInAction::CountBoarded { flight_id },
        ),
        (CheckIn::CountingBoarded { ticket_no, flight_id }, CheckInEvent::BoardedCounted(boarded)) => {
            match boarding_number(boarded) {
                Some(boarding_no) => {
                    let asked = ticket_no.clone();
                    (
                        CheckIn::FindingFare { ticket_no, flight_id, boarding_no },
                        CheckInAction::FindFare { ticket_no: asked, flight_id },
                    )
                },
                None => (
                    CheckIn::Finished,
                    CheckInAction::Finish(Err(CheckInError::BoardingNumberOutOfRange)),
                ),
            }
        },
        (
            CheckIn::FindingFare { ticket_no, flight_id, boarding_no },
            CheckInEvent::FareFound(Some(fare)),
        ) => (
            CheckIn::FindingAircraft { ticket_no, flight_id, boarding_no, fare_conditions: fare },
            CheckInAction::FindAircraft { flight_id },
        ),
        (CheckIn::FindingFare { .. }, CheckInEvent::FareFound(None)) => (
            CheckIn::Finished,
            CheckInAction::Finish(Err(CheckInError::NotRegistered(NotRegisteredError))),
        ),
        (
            CheckIn::FindingAircraft { ticket_no, flight_id, boarding_no, fare_conditions },
            CheckInEvent::AircraftFound(code),
        ) => (
            CheckIn::FindingSeat { ticket_no, flight_id, boarding_no },
            CheckInAction::FindSeat { flight_id, aircraft_code: code, fare_conditions },
        ),
        (
            CheckIn::FindingSeat { ticket_no, flight_id, boarding_no },
            CheckInEvent::SeatFound(seat),
        ) => {
            let kept = seat.clone();
            (
                CheckIn::Boarding { seat_no: kept },
                CheckInAction::InsertPass { ticket_no, flight_id, boarding_no, seat_no: seat },
            )
        },
        (CheckIn::Boarding { seat_no }, CheckInEvent::PassInserted) => (
            CheckIn::Finished,
            CheckInAction::Finish(Ok(seat_no)),
        ),
        _ => (CheckIn::Finished, CheckInAction::Finish(Err(CheckInError::OutOfTurn))),
    }
}

} // verus!
