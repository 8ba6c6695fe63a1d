pub mod clock;
pub mod models;
pub mod poller;
pub mod reconciler;
pub mod session;
pub mod store;
pub mod text;
pub mod spotify;
pub mod api;
pub mod pages;
pub mod auth;
