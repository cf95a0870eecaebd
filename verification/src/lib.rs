//! Fanning out over channels: one sending end that hands each value to one of several channels.

pub mod mpsc;
