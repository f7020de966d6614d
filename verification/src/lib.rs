//! A small API gateway: form-encoded request parameters with signature checking,
//! request dispatch, proxy routing and configuration records.

pub mod text;
pub mod str_map;
pub mod api;
pub mod config;
pub mod cacher;
pub mod proxy;
