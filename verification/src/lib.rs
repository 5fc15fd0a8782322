//! An IRC robot's core: the message grammar, the link resolver's decisions and
//! the client's command queue, each with a contract checked by Verus.

pub mod text;
pub mod message;
pub mod client;
pub mod url;
