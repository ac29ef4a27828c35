//! Itinerary search over a flight network.
//!
//! Two searches share one shape, directed paths under constraints:
//!
//! - [`paths`] enumerates every simple path between two airports through the
//!   static route topology of [`neighbours`], within a bound on the number
//!   of routes flown.
//! - [`find_flights`] enumerates every itinerary through a snapshot of
//!   scheduled flights ([`flights`]): legs that join at an airport within a
//!   connection window and visit no airport twice. [`journeys`] says in
//!   mathematical terms what an itinerary is and in which order the search
//!   lists them.
//!
//! Both searches are exact: they list every path or itinerary that meets the
//! constraints, each once, and nothing else. Finding nothing is an empty
//! result; only a configuration that is out of bounds is refused
//! ([`error`]).
//!
//! The remaining modules hold the decisions that the booking service takes
//! between reading and writing its records: [`handlers`], [`booking`],
//! [`check_in`], [`config`], with the shared enumerations in [`types`] and
//! calendar dates in [`calendar`].

pub mod booking;
pub mod calendar;
pub mod check_in;
pub mod config;
pub mod error;
pub mod find_flights;
pub mod flights;
pub mod handlers;
pub mod journeys;
pub mod neighbours;
pub mod paths;
pub mod types;
