//! Verified core of a plugin that discovers the services listening in each
//! herdr workspace.

pub mod advertise;
pub mod assoc;
pub mod attribute;
pub mod cli;
pub mod clipboard;
pub mod config;
pub mod daemon;
pub mod doctor;
pub mod herdr;
pub mod json;
pub mod manual;
pub mod names;
pub mod number;
pub mod observe;
pub mod order;
pub mod path;
pub mod pattern;
pub mod picker;
pub mod probe;
pub mod process;
pub mod scan;
pub mod screen;
pub mod seqs;
pub mod sidebar;
pub mod state;
pub mod text;
