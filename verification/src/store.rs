pub mod dynamic_store;
pub mod records;
pub mod records_manager;
