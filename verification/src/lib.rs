//! Tools for preparing CD+G rips for archiving.

pub mod archive;
pub mod archive_laws;
pub mod bytes;
pub mod casing;
pub mod contents_laws;
pub mod cue;
pub mod decimal;
pub mod files;
pub mod folder_laws;
pub mod layout;
pub mod msf;
pub mod name_laws;
pub mod names;
pub mod order;
pub mod preview_laws;
pub mod rename;
pub mod rename_laws;
pub mod rename_plan;
pub mod rename_plan_laws;
pub mod round_trip;
pub mod scan;
pub mod sheet;
pub mod sheet_laws;
pub mod split;
pub mod split_laws;
pub mod text;
pub mod text_laws;
