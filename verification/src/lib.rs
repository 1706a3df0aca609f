//! The verified core of `spawnado`, a benchmark for `posix_spawn(3C)`.

pub mod answers;
pub mod axis;
pub mod binary64;
pub mod closing;
pub mod command;
pub mod decimal;
pub mod digits;
pub mod exact;
pub mod figures;
pub mod launch;
pub mod nearest;
pub mod number;
pub mod order;
pub mod outputs;
pub mod plain;
pub mod plan;
pub mod plot;
pub mod promises;
pub mod quote;
pub mod report;
pub mod rounding;
pub mod scan;
pub mod spawn;
pub mod stats;
pub mod style;
pub mod summary;
pub mod sweep;
pub mod sweeps;
pub mod tables;
pub mod text;
pub mod units;
pub mod wording;
