pub mod activity_log;
pub mod agreement;
pub mod assoc;
pub mod text;
pub mod types;
pub mod contracts;
pub mod oracle;
pub mod random;
pub mod replica;
pub mod simulation;
