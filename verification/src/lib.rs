pub mod buffer;
pub mod codec;
pub mod document;
pub mod lines;
pub mod store;
pub mod syntax;
