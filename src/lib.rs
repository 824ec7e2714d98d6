//! A registry of soulbound attendance badges: events with their minters,
//! one badge per attendee and event, and enumerations of the badges issued.
use vstd::prelude::*;

pub mod address;
pub mod address_set;
pub mod enumeration;
pub mod error;
pub mod poap;
pub mod uri;

pub use address::Address;
pub use error::PoapError;
pub use poap::{EventData, LogRecord, Poap};

verus! {

} // verus!
