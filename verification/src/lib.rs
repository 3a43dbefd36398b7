pub mod btree;
pub mod storage;
