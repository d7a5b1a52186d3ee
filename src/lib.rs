//! Reading and writing flattened devicetree blobs (DTB).
//!
//! Reading: `dtb::DtbPtr::from_raw` runs the header checklist, `dtb::Dtb`
//! borrows the structure and string blocks, and word cursors (`cursor`)
//! walk the structure block in place. On top of them stand the tag stream
//! (`tag`), the entry-by-entry reader that typed decoders drive (`access`)
//! and lazy views that copy nothing: `node::Node`, `node_seq::NodeSeq`,
//! `reg::Reg`, `str_seq::StrSeq`, `matrix::Matrix`, `compatible` and the
//! RISC-V PMU tables (`riscv_pmu`). `utils` resolves paths and aliases.
//!
//! Writing: `ser::to_dtb` lays out a value tree (`patch::Value`) as a blob,
//! with a list of path patches that replace or add values; `pointer` and
//! `string_block` are its structure and string block writers.
pub mod common;
pub mod error;

pub mod cursor;
pub mod dtb;
pub mod tag;

pub mod access;
pub mod compatible;
pub mod matrix;
pub mod node;
pub mod node_seq;
pub mod reg;
pub mod riscv_pmu;
pub mod str_seq;
pub mod utils;

pub mod patch;
pub mod pointer;
pub mod ser;
pub mod string_block;

pub use error::{Error, ErrorType};
