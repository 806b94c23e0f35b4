//! Incremental harvester for a paginated search API.
//!
//! The crate builds validated, paginated query URLs for the Pushshift
//! Reddit API, drives a round-based harvest loop with deduplication,
//! junk filtering and exponential backoff, anonymizes sensitive record
//! fields, and reads and writes the record set as CSV rows.

pub mod anonymize;
pub mod nodecsv;
pub mod nodeset;
pub mod nodestructs;
pub mod params;
pub mod pserror;
pub mod psurl;
pub mod scraperclient;
pub mod pushshiftbuilder;
pub mod psendpoint;
pub mod sortopts;
pub mod strutil;
pub mod timeconvenience;
