//! Reading order for the text fragments of a typeset page.
//!
//! The fragments of a page are ordered by a partial order on their bounding
//! boxes (`geometry`), the cover graph of that order is built (`poset`) and
//! decomposed into chains (`chains`, with the proof that the chains are a
//! partition in `partition`), the chains are cut where the font changes or
//! where the vertical gap between two neighbours is large (`refine`), and the
//! pieces are merged into logical units (`merge`, `units`). `page` builds the
//! fragments from the raw data of a page; `item`, `names` and `classify` tell
//! what kind of document a file holds.
//!
//! Coordinates and font sizes are integers in a fixed-point unit of the
//! caller's choice. The code is verified against the models in its contracts;
//! the one thing taken on trust is `char::is_whitespace`, whose result has a
//! name in `text` and no definition.

pub mod chains;
pub mod classify;
pub mod fragment;
pub mod geometry;
pub mod item;
pub mod merge;
pub mod names;
pub mod page;
pub mod partition;
pub mod poset;
pub mod refine;
pub mod text;
pub mod units;
