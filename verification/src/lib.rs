//! A small Unix-like shell (`gash`) and two versions of a web server
//! (`zhtta`, `zhtta2`), with their parsing, packetising, routing, caching
//! and scheduling logic verified.
#![allow(non_camel_case_types)]

pub mod cli;
pub mod gash;
pub mod http;
pub mod table;
pub mod text;
pub mod zhtta;
pub mod zhtta2;
