pub mod binary;
pub mod capability;
pub mod checksum;
pub mod compression;
pub mod hardware;
pub mod parse;
pub mod rate_limiter;
