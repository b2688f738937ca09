//! A store of users, their tags and their employers, with a batched
//! relation resolver and an all-or-nothing create-user pipeline.
pub mod models;
pub mod batch;
pub mod store;
pub mod repositories;
pub mod schema;
