//! Offline analysis of web-server access logs: every line yields an IPv4
//! address and a timestamp, and an address that issues `K` requests within `T`
//! seconds is flagged, unless a line attributed to it carried the daily token.

pub mod ban_buffer;
pub mod parser;
pub mod reader;
pub mod search;
pub mod token;
pub mod tracker;

pub use crate::ban_buffer::RingBanBuffer;
pub use crate::parser::automaton::Automaton;
pub use crate::parser::pattern::{RegexError, RegexParser};
pub use crate::parser::simd::SimdParser;
pub use crate::parser::{LineParser, ParseError, ParseResult};
pub use crate::reader::next_line;
pub use crate::token::daily_token;
pub use crate::tracker::BanTracker;
