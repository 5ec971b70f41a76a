pub mod base64;
pub mod codecs;
pub mod compression;
pub mod error;
pub mod json;
pub mod report;
pub mod resource;
pub mod store;
pub mod textfmt;
pub mod utf8check;
