//! Turns Roblox place files into Rojo projects.

pub mod component;
pub mod elements;
pub mod filesystem;
pub mod number;
pub mod path;
pub mod place;
pub mod problem;
pub mod project;
pub mod properties;
pub mod sanitize;
pub mod text;
pub mod xml_events;
pub mod xml_tree;
