//! Control plane of a distributed time-series store: partition rules
//! and write splitting, table-route metadata and region failover, a
//! bounded background job scheduler, and the per-node region worker.

pub mod columns;
pub mod error;
pub mod failover;
pub mod insert;
pub mod lock;
pub mod manager;
pub mod memtable;
pub mod meta;
pub mod metadata;
pub mod partition;
pub mod prom;
pub mod range;
pub mod route;
pub mod row;
pub mod row_splitter;
pub mod rule;
pub mod scheduler;
pub mod seqs;
pub mod storage;
pub mod value;
pub mod worker;
