//! Shares what one zsh knows with every other: a capture of the state that a
//! startup script leaves is held against the last published one, the
//! difference becomes a generation of an append-only log, and each shell is
//! brought up to date by a payload of guarded shell code. A key that was
//! edited by hand is never overwritten, and search paths are merged entry by
//! entry.

pub mod text;
pub mod table;
pub mod paths;
pub mod globs;
pub mod lists;
pub mod merge;
pub mod state;
pub mod wire;
pub mod capture;
pub mod payload;
pub mod delivery;
pub mod prints;
pub mod tracking;
pub mod store;
pub mod revert;
pub mod reload;
pub mod settings;
pub mod report;
pub mod doctor;

pub mod text_laws;
pub mod list_laws;
pub mod merge_laws;
pub mod path_laws;
pub mod reapply_laws;
pub mod state_laws;
pub mod wire_laws;
pub mod payload_laws;
pub mod settings_laws;
pub mod shell_laws;
pub mod delivery_laws;
pub mod prints_laws;
pub mod report_laws;
pub mod store_laws;
pub mod reload_laws;
