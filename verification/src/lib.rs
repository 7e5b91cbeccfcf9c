//! A crawler for gemini capsules: a parser and renderer for the gemtext
//! line format, an address resolver, and a crawl engine with a resumable
//! frontier and per-address metadata table.

pub mod address;
pub mod engine;
pub mod gemtext;
pub mod strutil;

use vstd::prelude::*;

verus! {

} // verus!
