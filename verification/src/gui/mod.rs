//! What the window shows and what its buttons do, apart from the toolkit that draws it.

pub mod format;
pub mod rows;
pub mod selection;
pub mod session;
pub mod settings;
pub mod thumbnails;
