//! Closed enumerations shared by the search and booking interfaces, each with
//! the name under which it is stored and exchanged.

use vstd::prelude::*;

verus! {

/// An airport is identified by its short code.
pub type AirportCode = String;

/// What a location given by a caller denotes.
#[derive(Clone, Copy, Debug, PartialEq, Eq, Structural)]
pub enum LocationType {
    CITY,
    AIRPORT,
}

impl LocationType {
    /// The name under which the kind of location is exchanged.
    pub open spec fn spec_name(self) -> Seq<char> {
        match self {
            LocationType::CITY => "City"@,
            LocationType::AIRPORT => "Airport"@,
        }
    }

    /// The kind of location that is exchanged under `name`, if there is one.
    pub fn from_name(name: &String) -> (kind: Option<LocationType>)
        ensures
            match kind {
                Some(found) => found.spec_name() == name@,
                None => forall|other: LocationType| #[trigger] other.spec_name() != name@,
            },
    {
        if *name == LocationType::CITY.name() {
            Some(LocationType::CITY)
        } else if *name == LocationType::AIRPORT.name() {
            Some(LocationType::AIRPORT)
        } else {
            None
        }
    }

    /// The name under which the kind of location is exchanged, as text.
    pub fn name(self) -> (text: String)
        ensures
            text@ == self.spec_name(),
    {
        match self {
            LocationType::CITY => "City".to_owned(),
            LocationType::AIRPORT => "Airport".to_owned(),
        }
    }
}

/// Fare class of a ticket.
#[derive(Clone, Copy, Debug, PartialEq, Eq, Structural)]
pub enum BookingClass {
    Economy,
    Comfort,
    Business,
}

impl BookingClass {
    /// The name under which the class is stored.
    pub open spec fn spec_name(self) -> Seq<char> {
        match self {
            BookingClass::Economy => "Economy"@,
            BookingClass::Comfort => "Comfort"@,
            BookingClass::Business => "Business"@,
        }
    }

    /// The class that is stored under `name`, if there is one.
    pub fn from_name(name: &String) -> (class: Option<BookingClass>)
        ensures
            match class {
                Some(found) => found.spec_name() == name@,
                None => forall|other: BookingClass| #[trigger] other.spec_name() != name@,
            },
    {
        if *name == BookingClass::Economy.name() {
            Some(BookingClass::Economy)
        } else if *name == BookingClass::Comfort.name() {
            Some(BookingClass::Comfort)
        } else if *name == BookingClass::Business.name() {
            Some(BookingClass::Business)
        } else {
            None
        }
    }

    /// The name under which the class is stored, as text.
    pub fn name(self) -> (text: String)
        ensures
            text@ == self.spec_name(),
    {
        match self {
            BookingClass::Economy => "Economy".to_owned(),
            BookingClass::Comfort => "Comfort".to_owned(),
            BookingClass::Business => "Business".to_owned(),
        }
    }
}

impl vstd::std_specs::convert::FromSpecImpl<BookingClass> for String {
    /// Two strings with the same characters need not be the same value, so
    /// the conversion is specified by the characters of its result, on
    /// `from` itself.
    open spec fn obeys_from_spec() -> bool {
        false
    }

    open spec fn from_spec(value: BookingClass) -> String {
        arbitrary()
    }
}

impl From<BookingClass> for String {
    /// The stored name of the class.
    fn from(value: BookingClass) -> (text: String)
        ensures
            text@ == value.spec_name(),
    {
        value.name()
    }
}

} // verus!
