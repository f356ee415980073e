//! The verified core of a PCRE binding: reading the capture groups out of
//! the offset vector that a native match leaves, and looking them up by
//! position or by group number.
//!
//! `ovector` turns a match status and its offsets into `Captures`;
//! `captures` holds the groups of one match.
use vstd::prelude::*;

pub mod captures;
pub mod ovector;

verus! {

} // verus!
