//! Clipboard history for a Wayland desktop.
pub mod bin_management;
pub mod color;
pub mod copying;
pub mod decimal;
pub mod files;
pub mod history;
pub mod layout;
pub mod letter_case;
pub mod level;
pub mod offers;
pub mod picture;
pub mod pixels;
pub mod rows;
pub mod single;
pub mod size;
pub mod text;
pub mod tray;
pub mod update;
pub mod window;
