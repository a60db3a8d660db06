pub mod blpop;
pub mod echo;
pub mod get;
pub mod laws;
pub mod lpop;
pub mod lpush;
pub mod lrange;
pub mod ping;
pub mod set;
pub mod types;
