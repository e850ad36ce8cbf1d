pub mod inserter;
pub mod belt;
pub mod machine;
pub mod storage;
pub mod splitter;
pub mod power;
pub mod crafting;
