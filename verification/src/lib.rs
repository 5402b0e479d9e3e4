//! Cache warming for web sites: the variations of request headers to replay
//! against every URL, the classification of each response, and the bookkeeping
//! of a run.

pub mod axes;
pub mod classify;
pub mod combine;
pub mod config;
pub mod header;
pub mod heater;
pub mod languages;
pub mod report;
pub mod sitemaps;
