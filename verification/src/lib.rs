//! Port scanning library: the parsing of port and target lists, the
//! formatting of scan reports, and the decisions of the interactive form.

pub mod text;
pub mod ports;
pub mod cli;
pub mod report;
pub mod scan;
pub mod form;
