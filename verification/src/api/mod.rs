pub mod auth;
pub mod dpapi;
pub mod endpoints;
pub mod keystore;
pub mod retry;
