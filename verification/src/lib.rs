//! This crate implements the [Unicode Bidirectional Algorithm][tr9] for display of mixed
//! right-to-left and left-to-right text.
//!
//! Text is processed paragraph by paragraph. [`process_paragraph`] gives every character an
//! embedding level, even for left-to-right and odd for right-to-left. When the paragraph has been
//! broken into lines, [`reorder_line`] puts the characters of a line into display order, and
//! [`visual_runs`] does the same for its level runs.
//!
//! ## Example
//!
//! ```rust
//! use unicode_bidi::{process_paragraph, reorder_line};
//!
//! // Three Hebrew letters before three Latin ones.
//! let paragraph = "\u{05D0}\u{05D1}\u{05D2}abc";
//!
//! // Pass `None` to detect the paragraph level automatically.
//! let info = process_paragraph(paragraph, None);
//!
//! // This paragraph has embedding level 1 because its first strong character is RTL.
//! assert_eq!(info.para_level, 1);
//!
//! // One line that spans the entire paragraph.
//! let line = 0..paragraph.chars().count();
//! assert_eq!(reorder_line(paragraph, line, &info), "abc\u{05D2}\u{05D1}\u{05D0}");
//! ```
//!
//! ## Layout
//!
//! The rules stand in the order in which they apply:
//!
//! - [`tables`]: the class of a character.
//! - [`isolates`] and [`initial`]: isolates, and the level of a paragraph (P2, P3, X5c).
//! - [`explicit`]: explicit levels and directions (X1 to X8).
//! - [`sequences`] and [`prepare`]: level runs and isolating run sequences (X9, X10).
//! - [`implicit`]: weak and neutral types, and implicit levels (W1 to W7, N1, N2, I1, I2).
//! - [`paragraph`]: all of these, one after the other.
//! - [`reversal`], [`visual`] and [`reorder`]: the order of display (L2).
//!
//! The other modules state what holds of the rules: [`scripts`] which characters have which class,
//! [`nesting`] how levels, overrides and the direction of a paragraph follow from what is open
//! where, [`boundaries`] where runs start and how they follow each other, [`rules`] what becomes of
//! each weak and neutral class, [`resolution`] that every isolating run sequence is resolved on its
//! own, [`order`] which of two characters is displayed first, and [`one_direction`] what becomes of
//! text that runs in one direction.
//!
//! Bracket pairs (N0) and whitespace at the ends of lines (L1) are not treated.
//!
//! [tr9]: http://www.unicode.org/reports/tr9/
use vstd::prelude::*;

pub mod boundaries;
pub mod explicit;
pub mod implicit;
pub mod initial;
pub mod isolates;
pub mod level;
pub mod nesting;
pub mod one_direction;
pub mod order;
pub mod paragraph;
pub mod prepare;
pub mod reorder;
pub mod resolution;
pub mod reversal;
pub mod rules;
pub mod scripts;
pub mod sequences;
pub mod tables;
pub mod visual;

pub use initial::{initial_scan, InitialProperties};
pub use level::{class_for_level, is_rtl, LevelRun};
pub use paragraph::{process_paragraph, ParagraphInfo};
pub use prepare::level_runs;
pub use reorder::{reorder_line, visual_runs};
pub use tables::{bidi_class, BidiClass, UNICODE_VERSION};

verus! {

} // verus!
