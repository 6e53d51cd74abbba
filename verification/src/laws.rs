//! What the shell promises its user, stated of the keys, texts and values that the user sees.
//!
//! Each law says what a function's result is like in terms of its inputs alone: the texts on both
//! sides of the cursor, the words that a line is read as, the entry that is selected.
pub mod calculating;
pub mod choosing;
pub mod completion;
pub mod drawing;
pub mod editing;
pub mod environment;
pub mod expansion;
pub mod hinting;
pub mod keeping;
pub mod listing;
pub mod picking;
pub mod prompting;
pub mod recalling;
pub mod rewriting;
pub mod running;
pub mod shell;
pub mod storing;
pub mod syntax;
pub mod texts;
pub mod trusting;
pub mod typing;
