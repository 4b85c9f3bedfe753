//! Verified persistence layer for an authorship-signing tool.
//!
//! The library covers three mechanisms:
//! - a trailer codec that stores a file-system path in the tail bytes of an
//!   executable image, behind an 8-digit hexadecimal length field;
//! - a flat, line-oriented identity store (keyed identities with usernames and
//!   emails), with a parser, an in-memory ordered map, and whole-file textual
//!   rewrites that preserve comments;
//! - the decision logic of the relocation protocol that three cooperating
//!   executables follow.
//!
//! All file, process and terminal handling lives outside the library; every
//! function here is pure computation over byte vectors and is verified.

pub mod bytes;
pub mod coordinate;
pub mod filters;
pub mod identity;
pub mod signing_utils;
pub mod store;
pub mod templates;
pub mod laws;
pub mod parse;
pub mod render;
pub mod rewrite;
pub mod trailer;
