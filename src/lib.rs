pub mod models;
pub mod service;
pub mod laws;
