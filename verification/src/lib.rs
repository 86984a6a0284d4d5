//! Demultiplexing of per-cycle base-call files into per-sample FASTQ records.
//!
//! The crate holds the read layout and its per-cycle routing bytes, the
//! direct-indexed barcode table, the lock-step tile decoder, the
//! per-cluster demultiplexer and the batching rules of the writer stage.

pub mod barcode;
pub mod bcl_iterator;
pub mod demux;
pub mod layout;
pub mod paths;
pub mod run_info;
pub mod sample_sheet;
pub mod scheduler;
pub mod sheet_text;
pub mod text;
pub mod writer;
