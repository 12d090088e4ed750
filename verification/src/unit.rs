//! The units that the room handles: tasks, and the chains that string them together.
pub mod chain;
pub mod task;
