//! The logic of a tabbed file manager: sorted directory contents, tab groups
//! and panes, navigation history, file operations with collision handling and
//! undo, custom actions, and the text commands that drive all of them.
//!
//! Everything in this crate is free of I/O. Callers perform the reads, writes
//! and widget updates and hand plain values in and out.
use vstd::prelude::*;

pub mod actions;
pub mod applications;
pub mod blocks;
pub mod cache;
pub mod calendar;
pub mod chooser;
pub mod clipboard;
pub mod collections;
pub mod commands;
pub mod config;
pub mod contents;
pub mod database;
pub mod dbus;
pub mod entry;
pub mod existing;
pub mod filter;
pub mod flat;
pub mod flat_tab;
pub mod list;
pub mod listing;
pub mod loading;
pub mod logger;
pub mod menu;
pub mod names;
pub mod natsort;
pub mod nav;
pub mod objects;
pub mod opened;
pub mod operations;
pub mod order;
pub mod pane;
pub mod path;
pub mod patterns;
pub mod places;
pub mod progress;
pub mod properties;
pub mod regroup;
pub mod res;
pub mod rows;
pub mod saved_tabs;
pub mod search;
pub mod selection;
pub mod session;
pub mod settings;
pub mod snapshot;
pub mod status;
pub mod strings;
pub mod tab;
pub mod target;
pub mod text;
pub mod thumbs;
pub mod update;
pub mod window;

verus! {

} // verus!
