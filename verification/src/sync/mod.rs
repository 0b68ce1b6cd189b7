pub mod progress;
pub mod wizardsvault;
pub mod inventory;
pub mod achievements;
pub mod cache;
