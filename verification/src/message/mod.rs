//! Messages: reading them, and what is in them.

pub mod attachment;
pub mod cancellation;
pub mod compound;
pub mod date;
pub mod electronicmail;
pub mod message;
pub mod mime;
pub mod outlook;
pub mod reader;
pub mod session;
