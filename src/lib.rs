pub mod auth;
pub mod codec;
pub mod decoder;
pub mod error;
pub mod models;
pub mod pipeline;
