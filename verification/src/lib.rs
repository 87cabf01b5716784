//! Verified core of a file explorer: desktop-entry discovery for "open with",
//! launch planning, thumbnail caching and the preview pane's decisions.

pub mod text;
pub mod paths;
pub mod entry;
pub mod open_with;
pub mod thumbnail;
pub mod decode;
pub mod explorer;
