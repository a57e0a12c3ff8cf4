pub mod admin;
pub mod anthropic;
pub mod apikeys;
pub mod config;
pub mod credentials;
pub mod events;
pub mod frames;
pub mod jsontext;
pub mod kiro_request;
pub mod outside;
pub mod request_log;
pub mod sse;
pub mod sticky;
pub mod textutil;
