pub mod codec;
pub mod dispatch;
pub mod hello;
pub mod key;
pub mod map;
pub mod order;
pub mod types;
