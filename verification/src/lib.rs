use vstd::prelude::*;

pub mod route_type;
pub mod text;
pub mod clock;
pub mod headway;
pub mod calendar;
pub mod schedule;
pub mod report;
pub mod pathways;
pub mod network;
pub mod trips;
pub mod quality;
pub mod conflicts;
pub mod headsign;
pub mod similarity;
pub mod grouping;
pub mod fields;
pub mod components;
pub mod hubs;
pub mod stops;
pub mod findings;
pub mod analysis;
pub mod feed;

verus! {
}
