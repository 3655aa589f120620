//! Library behind the `.gitattributes export-ignore` campaign tool: the
//! `.gitattributes` line format and style handling, PR-body and
//! configuration building, pre-flight decisions and the state machines that
//! drive the GitHub and git work done by the application.
pub mod outside;
pub mod text;
pub mod style;
pub mod config;
pub mod checks;
pub mod pr;
pub mod builder;
pub mod savings;
pub mod github;
