//! Cells of CSV, XLSX and ODS files: addresses, sparse edits, sorting, searching and saving.
pub mod a1;
pub mod asked;
pub mod book;
pub mod cells;
pub mod cli;
pub mod copied;
pub mod counted;
pub mod error;
pub mod find;
pub mod guarded;
pub mod index;
pub mod inside;
pub mod json;
pub mod kept;
pub mod legible;
pub mod made;
pub mod made_ods;
pub mod matched;
pub mod native;
pub mod ods;
pub mod ods_patch;
pub mod opened;
pub mod ops;
pub mod ordered;
pub mod package;
pub mod placed;
pub mod ranked;
pub mod readback;
pub mod reach;
pub mod reader;
pub mod records;
pub mod refused;
pub mod report;
pub mod save;
pub mod scan;
pub mod reported;
pub mod rewrite;
pub mod seen;
pub mod sheet;
pub mod shown;
pub mod sort;
pub mod sorting;
pub mod sound;
pub mod spared;
pub mod split;
pub mod stamp;
pub mod text;
pub mod tree;
pub mod workbook;
pub mod xlsx;
pub mod xml;

pub use crate::error::Error;
pub use crate::find::{FindQuery, FindResult};
pub use crate::sheet::{Progress, Sheet};
pub use crate::sort::{parse_sort, SortKey, SortOrder};
