//! Network geolocation for Ethernet-connected hosts, as verified logic.
//!
//! The library reads what `ping`, `tracepath` and friends print, keeps the cache of
//! timing floors, turns the names of routers into location hints, makes the choices
//! of a measurement run, searches the place that explains the round-trip times best,
//! says how unsure that place is, and writes the report.
//!
//! Nothing here touches the network or the disk: what a probe printed comes in as
//! text, and what to run next goes out as plain values. Numbers are held as bit
//! patterns, see [`double`], and the steps of arithmetic on them are taken by a
//! function of the caller's, see [`calc`].
//!
//! The modules whose names end in `laws` hold what is proved of several functions
//! together.

pub mod anchors;
pub mod cache;
pub mod cache_laws;
pub mod calc;
pub mod calc_laws;
pub mod calibrate;
pub mod calibration_laws;
pub mod cluster;
pub mod commands;
pub mod constraint_laws;
pub mod double;
pub mod fit;
pub mod fit_laws;
pub mod geometry;
pub mod geometry_laws;
pub mod hint_laws;
pub mod hints;
pub mod order_laws;
pub mod parse_laws;
pub mod ping;
pub mod posterior;
pub mod prior_laws;
pub mod priors;
pub mod probe;
pub mod probe_laws;
pub mod ranking;
pub mod report;
pub mod report_laws;
pub mod rounds;
pub mod route_laws;
pub mod run_laws;
pub mod scale_laws;
pub mod score_laws;
pub mod scores;
pub mod search;
pub mod search_laws;
pub mod solver;
pub mod solver_laws;
pub mod summary;
pub mod summary_laws;
pub mod text;
pub mod text_laws;
pub mod trace;
