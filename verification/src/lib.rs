//! A small key-value layer for boat-race schedule data: an ordered
//! string-keyed store, a key codec that maps records into a flat key space
//! with a monthly view and a per-tournament view, and an engine that reads
//! and writes schedules through both views.

use vstd::prelude::*;

pub mod calendar;
pub mod codec;
pub mod engine;
pub mod error;
pub mod key;
pub mod store;
pub mod text;

pub use engine::BoatRaceEngine;
pub use error::StoreError;
pub use key::{generate_tournament_id, monthly_key, tournament_key};
pub use store::{KeyValueStore, MemoryStore};

verus! {

/// A single race event: one scheduled occurrence at a venue.
#[derive(Debug, Clone, PartialEq)]
pub struct RaceEvent {
    pub venue_id: u32,
    pub venue_name: String,
    pub event_name: String,
    pub grade: String,
    pub start_date: String,
    pub duration_days: u32,
}

/// The mathematical image of a `RaceEvent`: each text field as its
/// character sequence.
pub ghost struct RaceEventView {
    pub venue_id: u32,
    pub venue_name: Seq<char>,
    pub event_name: Seq<char>,
    pub grade: Seq<char>,
    pub start_date: Seq<char>,
    pub duration_days: u32,
}

impl View for RaceEvent {
    type V = RaceEventView;

    open spec fn view(&self) -> RaceEventView {
        RaceEventView {
            venue_id: self.venue_id,
            venue_name: self.venue_name@,
            event_name: self.event_name@,
            grade: self.grade@,
            start_date: self.start_date@,
            duration_days: self.duration_days,
        }
    }
}

/// A month's schedule: a "YYYY-MM" tag and the events filed under that month.
#[derive(Debug, Clone, PartialEq)]
pub struct MonthlySchedule {
    pub year_month: String,
    pub events: Vec<RaceEvent>,
}

} // verus!
