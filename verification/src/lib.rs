//! Reading and sanitizing of `.eml` and Outlook `.msg` messages, without a
//! toolkit.

pub mod codec;
pub mod html;
pub mod images;
pub mod message;
pub mod sanitizer;
pub mod text;
pub mod utils;
