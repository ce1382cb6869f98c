//! Client-side framing and correlation for the FreeSWITCH event socket.
//!
//! One connection carries command replies, pushed events and results of
//! background jobs. This crate decodes the byte stream into messages and
//! decides which waiting caller each message belongs to. All I/O stays with
//! the caller: the functions here take bytes and messages and return values.

pub mod codec;
pub mod error;
pub mod esl;
pub mod event;
pub mod session;
pub mod text;
