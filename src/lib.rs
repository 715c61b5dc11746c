//! Attributes under one shared logical clock: registration, transactional
//! ingestion, a forward and a reverse index per attribute, and clock
//! advancement with optional compaction of index history.
pub mod domain;
pub mod index;
pub mod laws;
pub mod value;

pub use domain::Domain;
pub use index::{CollectionIndex, Update};
pub use value::{Error, TxData, Value};
