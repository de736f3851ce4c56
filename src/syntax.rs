pub mod arguments;
pub mod content;
pub mod serial;
