//! Reading and writing Qlik QVD files from DuckDB.
//!
//! The library decides what is read, how it is converted and what is written. It does no
//! input or output: files are opened and read, and DuckDB is talked to, by its callers.
//!
//! Reading starts at [`files`], which orders the files of a pattern, and [`kind`], which
//! gives the columns of a file. A [`scan`] then draws batches of rows, whose values are
//! converted in [`convert`] and laid out in [`column`]. Writing is in [`copy`], and the
//! file that comes of it in [`encode`].
//!
//! What holds of the whole is stated in [`drain`] for scans, in [`serials`] for what is
//! read, in [`stored`] for what is written, and in [`round_trip`], [`timestamps`] and
//! [`intervals`] for what is read back of what was written. [`ieee`] states what the
//! arithmetic on doubles amounts to.

pub mod rounding;
pub mod double;
pub mod text;
pub mod kind;
pub mod convert;
pub mod scan;
pub mod drain;
pub mod column;
pub mod copy;
pub mod encode;
pub mod files;
pub mod accuracy;
pub mod ieee;
pub mod round_trip;
pub mod timestamps;
pub mod intervals;
pub mod serials;
pub mod stored;
