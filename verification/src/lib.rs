//! diskscope — GUI-independent disk-usage logic: scanning results, categories,
//! reclaimable space, formatting, and the decisions behind the screens.
pub mod category;
pub mod clearing;
pub mod dialogs;
pub mod disk;
pub mod format;
pub mod laws;
pub mod navigate;
pub mod notes;
pub mod order;
pub mod pages;
pub mod path;
pub mod query;
pub mod reclaim;
pub mod rows;
pub mod scan;
pub mod selection;
pub mod state;
pub mod text;
pub mod tree;
