//! COMTRADE (IEEE C37.111) fault-record files: parsing and serialisation of
//! their text and binary parts, with the logic proved by Verus.

pub mod cff;
pub mod cfg;
pub mod equipment;
pub mod export;
pub mod dat;
pub mod dfr;
pub mod dmf;
pub mod edit;
pub mod encoding;
pub mod error;
pub mod inf;
pub mod model;
pub mod text;
pub mod time;

pub use error::{Error, FileRole};
