//! LMS-based straight-line grammars of byte strings.
//!
//! A grammar is built in rounds. Each round classifies the positions of the
//! text as L or S, sorts the LMS positions by induced sorting, emits one
//! rule for each run of equal LMS substrings and rewrites the text with the
//! symbols of those rules. When a round emits no rule, the text that is
//! left becomes the start rule.
//!
//! - [`packed`] binds the `succinct` crate's bit-packed vectors and rank
//!   index to sequences; [`vectors`] moves plain vectors in and out of them;
//!   [`width`] computes element widths.
//! - [`text`] models texts, L/S types and LMS positions; [`buckets`] the
//!   bucket layout of the sort's work array.
//! - [`iss`] holds the classifier and the induced sort. [`induce`] states
//!   the sort step by step and what it returns; [`placing`], [`left_scan`]
//!   and [`right_scan`] prove what its three phases keep true; [`order`]
//!   and [`sorted`] prove that it sorts, and [`runs`] what follows for the
//!   rules.
//! - [`lmsg`] holds the builder; [`grammar`] states what it builds and what
//!   a grammar derives; [`round`] proves that the grammar derives the
//!   bytes it was built from.

pub mod buckets;
pub mod grammar;
pub mod induce;
pub mod iss;
pub mod left_scan;
pub mod lmsg;
pub mod order;
pub mod packed;
pub mod placing;
pub mod right_scan;
pub mod round;
pub mod runs;
pub mod sorted;
pub mod text;
pub mod vectors;
pub mod width;
