pub mod codec;
pub mod connection;
pub mod dispatch;
pub mod frame;
pub mod laws;
pub mod lines;
pub mod pool;
pub mod value;
