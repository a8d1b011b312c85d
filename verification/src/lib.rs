//! Street and address documents for a geocoding index, derived from
//! OpenStreetMap objects and from address records.
//!
//! * [`osm`] models the OpenStreetMap objects that the street extraction reads.
//! * [`admin`] holds administrative regions and the regions known to enclose a
//!   coordinate.
//! * [`text`] orders names and writes identifiers as decimal text.
//! * [`street`] extracts one street document per logical street;
//!   [`street::theorems`] holds what is proved of the documents of every graph.
//! * [`addr_reader`] validates address documents and sequences an import run.
pub mod addr_reader;
pub mod admin;
pub mod osm;
pub mod street;
pub mod text;
