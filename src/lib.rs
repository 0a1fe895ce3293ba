//! Decodes raw register values into named bitfields, following a tree of
//! register descriptions.

pub mod config;
pub mod decode;
pub mod format;
pub mod literal;
pub mod mask;
pub mod report;
pub mod request;
