//! A deterministic guard for the tool calls of a coding agent.
//!
//! [`hook`] turns an announced tool call into a verdict. Commands are judged by
//! [`pattern`] and [`validator`], on the segments that [`split`] makes of them; the
//! patterns come from a configuration ([`config`], [`builtin`]). Paths are judged by
//! [`sandbox`], with the help of [`path`] and [`resolve`]. [`denial`]
//! writes the answer, in the form that [`json`] describes.

pub mod builtin;
pub mod config;
pub mod denial;
pub mod hook;
pub mod json;
pub mod path;
pub mod pattern;
pub mod resolve;
pub mod sandbox;
pub mod split;
pub mod text;
pub mod validator;
