//! Decoding of NORAD two-line element sets and a keyed cache of the newest
//! record per satellite.

pub mod text;
pub mod decimal;
pub mod error;
pub mod epoch;
pub mod lines;
pub mod record;
pub mod batch;
pub mod cache;

pub use batch::{decode_batch, Batch, Failure};
pub use cache::Cache;
pub use decimal::{parse_decimal_point_assumed, parse_fixed_point, Decimal};
pub use epoch::{get_epoch_from_tle, Epoch};
pub use error::{DecodeError, Field, Reason};
pub use lines::split_tle;
pub use record::{parse_tle, TLE};
