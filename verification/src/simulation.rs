pub mod activity_log;
pub mod path;
pub mod simulator;
pub mod file_system;
pub mod in_memory_storage;
pub mod message_bus;
