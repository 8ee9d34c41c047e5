//! Browsing and surgical editing of coding-assistant session transcripts
//! (JSON Lines files), with the transcript logic verified.

#![verifier::loop_isolation(false)]

pub mod text;

pub mod json;
pub mod outside;
pub mod session;
pub mod pairing;
pub mod order;
pub mod tokens;
pub mod scan;
pub mod search;
pub mod cli;
pub mod screens;
pub mod app;
