//! Verified editing and decision logic of a node graph editor.

pub mod actions;
pub mod catalog;
pub mod dismissal;
pub mod editor;
pub mod gesture;
pub mod graph_core;
pub mod groups;
pub mod id_order;
pub mod keys;
pub mod layout;
pub mod name_set;
pub mod overlay;
pub mod seq_facts;
pub mod style;
pub mod text_input;
pub mod tombstones;
pub mod windows;
pub mod world;
