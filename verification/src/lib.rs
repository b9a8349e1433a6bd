//! Shell-history search: parsing of zsh history files, duplicate filtering,
//! ranked search and the selection state of the picker.

pub mod history;
pub mod render;
pub mod search;
pub mod state;
pub mod text;
