//! Verified core of a multi-robot reservation and plan-execution service.

pub mod costmap;
pub mod costmap_laws;
pub mod coverage;
pub mod discovery;
pub mod double;
pub mod execution;
pub mod executor;
pub mod executor_laws;
pub mod fitting;
pub mod floor;
pub mod floor_laws;
pub mod grid;
pub mod history;
pub mod integral;
pub mod ledger;
pub mod messages;
pub mod names;
pub mod number_laws;
pub mod occupancy;
pub mod occupancy_laws;
pub mod precision;
pub mod region;
pub mod release;
pub mod release_laws;
pub mod reservation;
pub mod roster;
pub mod rounding;
pub mod server;
pub mod service_laws;
pub mod session;
pub mod single;
pub mod topics;
pub mod view_laws;
pub mod visualizer;
