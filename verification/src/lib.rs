use vstd::prelude::*;

pub mod calendar;
pub mod heatmap;
pub mod journal;
pub mod language;
pub mod library;
pub mod profile;
pub mod progress;
pub mod loader;
pub mod request;
pub mod search;
pub mod schedule;
pub mod sorting;
pub mod text;
pub mod timeline;
pub mod unlock_queue;

verus! {
} // verus!
