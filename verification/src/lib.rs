//! Restores the asset tree of a Unity package from its entry stream.

pub mod entry;
pub mod group;
pub mod laws;
pub mod paths;
pub mod restorer;
pub mod stream;
pub mod text;
pub mod tree;
