//! Random table management for tabletop games: denomination-aware money and
//! weighted sampling of table entries under a count or cost limit.

pub mod codec;
pub mod currency;
pub mod entropy;
pub mod error;
pub mod id_name_pair;
pub mod order;
pub mod sampling;
pub mod table;
pub mod text;

pub use crate::codec::{CurrencyVisitorResult, ParseCurrencyError};
pub use crate::currency::{Currency, CurrencyError};
pub use crate::error::BackendError;
pub use crate::id_name_pair::IdNamePair;
pub use crate::sampling::create_rng;
pub use crate::table::{FileTableData, RollLimit, RollResult, RollType, TableData, TableEntry};
