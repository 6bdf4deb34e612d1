//! Process-data mapping for an EtherCAT master: requirement bookkeeping,
//! PDO / sync-manager mapping resolution, and typed access to the domain image.

pub mod config;
pub mod field;
pub mod mapping;
pub mod types;
