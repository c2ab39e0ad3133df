//! A small static asset server: versioned files stored under `<tag>/<path>`
//! inside one storage directory. This crate holds the decisions of the
//! server (path normalization and containment, authentication, configuration,
//! the answers of the endpoints), each with a proved contract; the HTTP
//! plumbing and the file system calls live in the application around it.
pub mod assets;
pub mod auth_guard;
pub mod config;
pub mod health;
pub mod host;
pub mod paths;
pub mod storage;
pub mod tags;
pub mod status;
pub mod text;
pub mod upload;
