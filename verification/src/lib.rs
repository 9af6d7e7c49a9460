//! VMDK (VMware Virtual Machine Disk) reader and writer.
//!
//! Handles the **monolithic sparse** variant: a single `.vmdk` file
//! containing a sparse-extent header, an embedded text descriptor, the
//! grain directory, the grain tables, and the grain data. Other variants
//! (monolithicFlat split across files, twoGbMaxExtent, streamOptimized,
//! vmfs) are reported as [`Error::Unsupported`], so callers can surface a
//! clear message rather than reading garbage.
//!
//! [`reader::open`] says what opening gives, [`reader::state`] what reading
//! gives, [`reader::effect`] what writing does, and [`reader::laws`] what
//! holds of a reader's calls taken together. [`numbers`] says the same of an
//! image's bytes as plain numbers: which images open, what a read of them
//! gives, what a write leaves.

pub mod bytes;
pub mod content_id;
pub mod crash;
pub mod descriptor;
pub mod device;
pub mod error;
pub mod extents;
pub mod header;
pub mod image;
pub mod inflate;
pub mod numbers;
pub mod reader;
pub mod text;
pub mod walk;

pub use error::{Error, Result};
pub use header::{SparseHeader, MAGIC};
pub use reader::VmdkReader;
