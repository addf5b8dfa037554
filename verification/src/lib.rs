//! Bundle, archive, patch and backup logic of a small Path of Exile 2 patcher.

pub mod app;
pub mod apply;
pub mod backup;
pub mod block_laws;
pub mod blocks;
pub mod bytes;
pub mod cache;
pub mod choice_laws;
pub mod choices;
pub mod color_editor;
pub mod compression;
pub mod edit_laws;
pub mod edits;
pub mod editor;
pub mod editor_state;
pub mod ggpk;
pub mod ggpk_frame;
pub mod ggpk_laws;
pub mod ggpk_patch;
pub mod hash_laws;
pub mod hash_vectors;
pub mod hashing;
pub mod index;
pub mod index_laws;
pub mod index_update;
pub mod install;
pub mod label_laws;
pub mod labels;
pub mod line_laws;
pub mod lines;
pub mod name_laws;
pub mod open;
pub mod order;
pub mod overrides;
pub mod patch_laws;
pub mod patch_set;
pub mod patches;
pub mod path_laws;
pub mod paths;
pub mod pick_laws;
pub mod place_laws;
pub mod places;
pub mod replacements;
pub mod restore;
pub mod row_laws;
pub mod run_laws;
pub mod script_laws;
pub mod search;
pub mod search_laws;
pub mod set_laws;
pub mod setting_laws;
pub mod sort;
pub mod splices;
pub mod steam_laws;
pub mod store;
pub mod targets;
pub mod tasks;
pub mod text;
pub mod tools;
pub mod transforms;
pub mod utf16;
