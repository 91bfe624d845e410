pub mod logs;
pub mod rpc;
pub mod storage;
