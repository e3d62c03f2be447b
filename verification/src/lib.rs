//! Logic of the desktop client's local file-exchange server: request routing,
//! multipart parsing, the received/shared stores, LAN address selection and
//! the small text helpers they rest on.

pub mod text;

pub mod mime;

pub mod external;

pub mod lan;

pub mod multipart;

pub mod ids;

pub mod store;

pub mod reply;

pub mod exchange;

pub mod server;

pub mod formdata;

pub mod laws;
