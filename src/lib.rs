//! Per-station temperature aggregation over `<name>;<value>\n` records.
//!
//! Values are fixed-point decimals with one fractional digit, held as
//! integers at ten times their scale ("tenths").
pub mod value;
pub mod splitter;
pub mod table;
pub mod parser;
pub mod mean;
pub mod median;

pub use mean::MeanTable;
pub use median::{ChunkError, ExactTable, StationValues};
pub use parser::{next_record, ParseError};
pub use splitter::{find_new_line_pos, SplitError, Splitter};
pub use table::StationResult;
pub use value::{parse_value, round_off};
