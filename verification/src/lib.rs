//! Finding duplicate files and choosing which copies to remove.
pub mod glob;
pub mod order;
pub mod sequence;
pub mod text;
pub mod path;
pub mod path_laws;
pub mod size;
pub mod path_set;
pub mod record;
pub mod tree;
pub mod tree_laws;
pub mod places;
pub mod row_laws;
pub mod groups;
pub mod order_laws;
pub mod hash;
pub mod grouping;
pub mod location;
pub mod cache;
pub mod store_laws;
pub mod scanner;
pub mod walk_laws;
pub mod scan_laws;
pub mod stage_laws;
pub mod resume_laws;
pub mod report;
pub mod report_laws;
pub mod app;
pub mod selection;
pub mod outline;
pub mod deletion;
pub mod keys;
pub mod filter_laws;
pub mod select_laws;
pub mod delete_laws;
pub mod key_laws;
pub mod app_laws;
pub mod view;
pub mod show_laws;
pub mod prompt;
pub mod progress;
pub mod text_laws;
