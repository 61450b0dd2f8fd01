//! An application launcher's logic: reading freedesktop desktop entries into
//! launchable items, turning their `Exec=` values into command lines,
//! searching the items by name, and the launcher window's state.

pub mod desktop_file;
pub mod launch_cmd;
pub mod platform_layer;
pub mod text;
pub mod ui;
