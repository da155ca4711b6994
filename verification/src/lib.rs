//! Decision core of a home-security advisor.
use vstd::prelude::*;

pub mod admin;
pub mod api;
pub mod attrs;
pub mod canned;
pub mod cards;
pub mod conversation;
pub mod cs_support;
pub mod cursor;
pub mod decide;
pub mod draft_meta;
pub mod draftgen;
pub mod hours;
pub mod materials;
pub mod product_gate;
pub mod prompt_input;
pub mod quick_replies;
pub mod text;
pub mod understand;
pub mod urls;

verus! {

} // verus!
