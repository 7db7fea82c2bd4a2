pub mod error;
pub mod frame;
pub mod pb;
pub mod service;
pub mod storage;
pub mod wire;

pub use error::FrameError;
pub use error::KvError;
pub use pb::CommandRequest;
pub use pb::CommandResponse;
pub use pb::Hdel;
pub use pb::Hexist;
pub use pb::Hget;
pub use pb::Hgetall;
pub use pb::Hmdel;
pub use pb::Hmexist;
pub use pb::Hmget;
pub use pb::Hmset;
pub use pb::Hset;
pub use pb::Kvpair;
pub use pb::Value;
pub use service::dispatch;
pub use storage::MemStoreIter;
pub use storage::MemTable;
pub use storage::Storage;
