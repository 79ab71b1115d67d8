//! Verified core of a clipboard history manager: content classification,
//! deterministic text/number transforms, and a bounded, ordered history store.
//!
//! The surrounding process (polling loop, disk persistence, terminal output)
//! lives outside this crate and talks to it through plain values.

pub mod cli;
pub mod clip_item;
pub mod clipboard;
pub mod number_format;
pub mod storage;
pub mod text_transform;
pub mod transforms;
pub mod text;
pub mod ui;
