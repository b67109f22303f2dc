//! Locating NOAA GFS forecast runs and the records inside their index files.
//!
//! The crate names the objects of one forecast run, judges from a bucket
//! listing whether the run is complete, parses the colon-delimited index
//! text into records with byte ranges, and resolves a parameter and level
//! to the byte range of one record.

pub mod api;
pub mod error;
pub mod gfs;
pub mod s3_utils;
pub mod text;
pub mod time;
