//! Device list and inventory polling for HID++ peripherals.
//!
//! - [`device`]: what a HID++ probe, the asset registry and the saved
//!   configuration hand over.
//! - [`text`], [`codename`]: text primitives, and tidying raw codenames.
//! - [`record`]: one entry of the device list, from a live probe or from memory.
//! - [`lexical`], [`order`]: lexicographic order, and the stable order of the list.
//! - [`list`]: the list itself, the union of live and remembered devices.
//! - [`watcher`]: the decisions of the polling inventory watcher.
//!
//! Contracts speak of abstract values (`deep_view()`, with `Seq<char>` for text).
//! The `lemma_` functions that are public state what holds across functions.

pub mod codename;
pub mod device;
pub mod lexical;
pub mod list;
pub mod order;
pub mod record;
pub mod text;
pub mod watcher;
