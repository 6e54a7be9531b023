//! Live snapshot browser core for an external key-value store.
//!
//! The crate models decoded store entries (`models`), groups them into
//! immutable snapshots with derived display headers (`data`), applies a
//! filter/sort/paginate pipeline (`view`), and drives a focus-based
//! navigation state machine over the result (`app`, `events`). Store
//! access, terminal drawing and raw input decoding live outside the
//! library; the core works on plain values handed in from that edge.

pub mod app;
pub mod data;
pub mod events;
pub mod models;
pub mod sorting;
pub mod strings;
pub mod view;
