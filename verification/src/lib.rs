//! Incremental reader for a compressed film list.
//!
//! The list is an xz stream of one document: an envelope that is almost JSON
//! around records of twenty fields each. A [`Parser`] takes the compressed
//! bytes in pieces of any size, finds each record by the literals around it
//! as soon as it is complete, and makes an [`Item`] of it, without ever
//! holding the whole document.
//!
//! What every function returns is stated over the models of the modules:
//! [`text`] and [`calendar`] for numbers, dates and times, [`url`] for derived
//! URLs, [`scan`] for the boundaries, [`record`] for the fields and [`stream`]
//! for a document as a whole.

pub mod calendar;
pub mod decoder;
pub mod error;
pub mod parser;
pub mod record;
pub mod scan;
pub mod stream;
pub mod text;
pub mod url;

pub use calendar::{parse_date, parse_time, Date, Time};
pub use error::Error;
pub use parser::{finish_buffer, parse_buffer, shift_data, Parser};
pub use record::{item_from_raw, parse_fields, parse_item, parse_last_item, Item};
pub use scan::{parse_header, scan_item, scan_last_item};
pub use url::parse_url_suffix;
